use vstd::prelude::*;
use crate::dag::graph_utils::{distance_to_root_level, max_root_depth};
use crate::dag::linked_graph::{GraphModel, LinkedGraph, lemma_nodup_bounded};
use crate::dag::node::{NodeContent, NodeId};
use crate::dag::verification::{default_graph_verifier, passes_default_rules};
use crate::optimisers::genetic::constants::MAX_GRAPH_GEN_ATTEMPTS;
use crate::optimisers::genetic::params::{FactoryModel, GraphRequirements, OptNodeFactory};
use crate::optimisers::genetic::rng::GeneticRng;

verus! {

/// The most nodes a generated graph may hold, so that its levels can be
/// counted in an `i32` and a few graphs of that size fit in one arena.
pub open spec fn growth_limit() -> nat {
    if usize::MAX / 8 < i32::MAX - 1 {
        (usize::MAX / 8) as nat
    } else {
        (i32::MAX - 1) as nat
    }
}

/// The growth limit, computed.
pub fn growth_limit_exec() -> (r: usize)
    ensures
        r == growth_limit(),
{
    if usize::MAX / 8 < (i32::MAX - 1) as usize {
        usize::MAX / 8
    } else {
        (i32::MAX - 1) as usize
    }
}

/// `g` holds a single active node named `name`, without parameters or
/// parents.
pub open spec fn single_node_graph(g: GraphModel, name: Seq<char>) -> bool {
    &&& g.nodes.len() == 1
    &&& g.order == seq![NodeId(0)]
    &&& g.nodes[0].name == name
    &&& g.nodes[0].params.len() == 0
    &&& g.nodes[0].parents.len() == 0
}

/// A graph of the single node `content`.
fn single_node(content: NodeContent) -> (r: LinkedGraph)
    requires
        content.params@.len() == 0,
    ensures
        r@.wf(),
        single_node_graph(r@, content.name@),
{
    let mut g = LinkedGraph::new();
    let no_parents: Vec<NodeId> = Vec::new();
    let id = g.add_detached(content, no_parents.as_slice());
    proof {
        crate::dag::linked_graph::lemma_dedup(Seq::<NodeId>::empty());
    }
    g.add_node(id);
    proof {
        assert(g@.order.len() >= 1);
        assert(g@.order.no_duplicates());
        lemma_nodup_bounded(g@.order, 1);
        assert(g@.order[0] == id);
        assert(g@.order =~= seq![NodeId(0)]);
    }
    g
}

/// The graph used when no generated graph passes: a single node under the
/// factory's next name, or named `a` when the factory has none.
fn fallback_graph(factory: &mut OptNodeFactory) -> (r: LinkedGraph)
    ensures
        r@.wf(),
        final(factory)@.available == old(factory)@.available,
        exists|name: Seq<char>| single_node_graph(r@, name) && (name == "a"@ || old(factory)@.available.contains(name)),
{
    match factory.get_node(false) {
        Some(content) => {
            proof {
                let alts = old(factory)@.available;
                assert(alts.contains(content.name@)) by {
                    let k = (old(factory)@.counter % alts.len()) as int;
                    assert(alts[k] == content.name@);
                }
            }
            single_node(content)
        },
        None => {
            proof {
                reveal_strlit("a");
            }
            single_node(NodeContent::new(String::from_str("a")))
        },
    }
}

/// `h` is `g` grown below `p`: the nodes of `g` stay as they are and stay
/// active, and each new node is active, has no parameters, is named from
/// `names` and has a single parent, `p` or a node that came before it.
pub open spec fn grown_below(g: GraphModel, h: GraphModel, p: NodeId, names: Seq<Seq<char>>) -> bool {
    &&& h.len() >= g.len()
    &&& h.nodes.take(g.len() as int) == g.nodes
    &&& h.order.len() >= g.order.len()
    &&& h.order.take(g.order.len() as int) == g.order
    &&& forall|i: int| g.len() <= i < h.len() ==> #[trigger] grown_node(h, g.len(), p, names, i)
}

/// The node `i` of `h` is active, has no parameters, is named from `names`
/// and has a single parent, `p` or a node from `base` on that came before it.
pub open spec fn grown_node(h: GraphModel, base: nat, p: NodeId, names: Seq<Seq<char>>, i: int) -> bool {
    &&& h.is_active(NodeId(i as usize))
    &&& names.contains(h.nodes[i].name)
    &&& h.nodes[i].params.len() == 0
    &&& h.nodes[i].parents.len() == 1
    &&& (h.nodes[i].parents[0] == p || base <= h.nodes[i].parents[0].0 < i)
}

/// Growing below a node that the first growth added extends that growth.
proof fn lemma_grown_trans(g: GraphModel, m: GraphModel, h: GraphModel, p: NodeId, q: NodeId, names: Seq<Seq<char>>)
    requires
        h.wf(),
        grown_below(g, m, p, names),
        grown_below(m, h, q, names),
        g.len() <= q.0 < m.len(),
    ensures
        grown_below(g, h, p, names),
{
    assert(h.nodes.take(g.len() as int) =~= m.nodes.take(g.len() as int)) by {
        assert forall|i: int| 0 <= i < g.len() implies h.nodes[i] == m.nodes[i] by {
            assert(h.nodes.take(m.len() as int)[i] == m.nodes[i]);
        }
    }
    assert(h.order.take(g.order.len() as int) =~= m.order.take(g.order.len() as int)) by {
        assert forall|i: int| 0 <= i < g.order.len() implies h.order[i] == m.order[i] by {
            assert(h.order.take(m.order.len() as int)[i] == m.order[i]);
        }
    }
    assert forall|i: int| g.len() <= i < h.len() implies #[trigger] grown_node(h, g.len(), p, names, i) by {
        if i < m.len() {
            assert(grown_node(m, g.len(), p, names, i));
            assert(h.nodes.take(m.len() as int)[i] == m.nodes[i]);
            let x = NodeId(i as usize);
            assert(m.is_active(x));
            let t = choose|t: int| 0 <= t < m.order.len() && m.order[t] == x;
            assert(h.order.take(m.order.len() as int)[t] == x);
            assert(h.order[t] == x);
        } else {
            assert(grown_node(h, m.len(), q, names, i));
        }
    }
}

/// Grows `graph` below `node_parent`: a random number of new nodes between
/// the arities, each with `node_parent` as parent, each growing on with
/// probability 3/10 while the graph is not too deep. `budget` bounds the
/// nesting of the growth, and the graph stops growing at the growth limit.
/// At least one node is added when the factory has a name, the graph is
/// below the growth limit and the arities leave room for one more.
fn graph_growth(
    graph: &mut LinkedGraph,
    node_parent: NodeId,
    factory: &mut OptNodeFactory,
    requirements: &GraphRequirements,
    max_depth: usize,
    rng: &mut GeneticRng,
    budget: usize,
)
    requires
        old(graph)@.wf(),
        node_parent.0 < old(graph)@.len(),
        old(graph)@.len() <= growth_limit(),
    ensures
        final(graph)@.wf(),
        final(graph)@.len() <= growth_limit(),
        final(graph)@.len() >= old(graph)@.len(),
        final(graph)@.nodes.take(old(graph)@.len() as int) == old(graph)@.nodes.take(old(graph)@.len() as int),
        final(factory)@.available == old(factory)@.available,
        grown_below(old(graph)@, final(graph)@, node_parent, old(factory)@.available),
        old(factory)@.available.len() > 0 && old(graph)@.len() < growth_limit() && requirements.min_arity < usize::MAX
            && requirements.max_arity < usize::MAX ==> final(graph)@.len() > old(graph)@.len(),
    decreases budget,
{
    proof {
        assert(old(graph)@.nodes.take(old(graph)@.len() as int) =~= old(graph)@.nodes);
        assert(old(graph)@.order.take(old(graph)@.order.len() as int) =~= old(graph)@.order);
    }
    let min_arity = if requirements.min_arity > 1 { requirements.min_arity } else { 1 };
    let max_arity = if requirements.max_arity > min_arity { requirements.max_arity } else { min_arity };
    if max_arity == usize::MAX {
        return;
    }
    let offspring_size = rng.gen_range(min_arity, max_arity + 1);
    let mut k: usize = 0;
    while k < offspring_size
        invariant
            graph@.wf(),
            node_parent.0 < graph@.len(),
            graph@.len() <= growth_limit(),
            graph@.len() >= old(graph)@.len(),
            graph@.nodes.take(old(graph)@.len() as int) == old(graph)@.nodes.take(old(graph)@.len() as int),
            factory@.available == old(factory)@.available,
            grown_below(old(graph)@, graph@, node_parent, old(factory)@.available),
            old(factory)@.available.len() > 0 && old(graph)@.len() < growth_limit() ==> k == 0 || graph@.len() > old(
                graph,
            )@.len(),
            k == 0 ==> graph@.len() == old(graph)@.len(),
            1 <= min_arity <= offspring_size,
        decreases offspring_size - k,
    {
        if graph.arena_len() >= growth_limit_exec() {
            return;
        }
        let ghost factory_counter_before = factory@.counter;
        match factory.get_node(false) {
            Some(content) => {
                let ghost before = graph@;
                let no_parents: Vec<NodeId> = Vec::new();
                let node = graph.add_detached(content, no_parents.as_slice());
                proof {
                    assert(graph@.nodes.take(before.len() as int) == before.nodes);
                    assert(graph@.nodes.take(old(graph)@.len() as int) =~= before.nodes.take(old(graph)@.len() as int));
                }
                let ghost b2 = graph@;
                graph.add_node(node);
                let ghost b2a = graph@;
                graph.connect_nodes(node_parent, node);
                proof {
                    let g0 = old(graph)@;
                    let names = old(factory)@.available;
                    assert(b2.nodes[node.0 as int].parents =~= Seq::<NodeId>::empty()) by {
                        crate::dag::linked_graph::lemma_dedup(Seq::<NodeId>::empty());
                    }
                    assert(names.contains(b2.nodes[node.0 as int].name)) by {
                        let kk = (factory_counter_before % names.len()) as int;
                        assert(names[kk] == b2.nodes[node.0 as int].name);
                    }
                    assert(graph@.nodes[node.0 as int].parents =~= seq![node_parent]);
                    assert(graph@.order == b2a.order);
                    assert(grown_below(g0, graph@, node_parent, names)) by {
                        assert(graph@.nodes.take(g0.len() as int) =~= before.nodes.take(g0.len() as int)) by {
                            assert forall|i: int| 0 <= i < g0.len() implies graph@.nodes[i] == before.nodes[i] by {
                                assert(i != node.0);
                                assert(b2.nodes.take(before.len() as int)[i] == before.nodes[i]);
                            }
                        }
                        assert(graph@.order.take(g0.order.len() as int) =~= before.order.take(g0.order.len() as int)) by {
                            assert forall|i: int| 0 <= i < g0.order.len() implies graph@.order[i] == before.order[i] by {
                                assert(b2a.order.take(before.order.len() as int)[i] == before.order[i]);
                            }
                        }
                        assert forall|i: int| g0.len() <= i < graph@.len() implies #[trigger] grown_node(
                            graph@,
                            g0.len(),
                            node_parent,
                            names,
                            i,
                        ) by {
                            if i < before.len() {
                                assert(grown_node(before, g0.len(), node_parent, names, i));
                                assert(b2.nodes.take(before.len() as int)[i] == before.nodes[i]);
                                assert(graph@.nodes[i] == before.nodes[i]);
                                let x = NodeId(i as usize);
                                assert(before.is_active(x));
                                let t = choose|t: int| 0 <= t < before.order.len() && before.order[t] == x;
                                assert(b2a.order.take(before.order.len() as int)[t] == x);
                                assert(graph@.order[t] == x);
                            } else {
                                assert(i == node.0);
                                assert(b2a.is_active(node));
                                assert(graph@.order == b2a.order);
                            }
                        }
                    }
                }
                proof {
                    assert(graph@.nodes.take(old(graph)@.len() as int) =~= b2.nodes.take(old(graph)@.len() as int)) by {
                        assert forall|i: int| 0 <= i < old(graph)@.len() implies graph@.nodes[i] == b2.nodes[i] by {
                            assert(i != node.0);
                        }
                    }
                    lemma_nodup_bounded(graph@.order, graph@.len());
                }
                let height = distance_to_root_level(graph, node);
                let limit: usize = if max_depth >= 1 { max_depth - 1 } else { 0 };
                let is_max_depth_exceeded = height >= 0 && (height as usize) >= limit;
                if !is_max_depth_exceeded && budget > 0 && rng.gen_ratio(3, 10) {
                    let ghost b3 = graph@;
                    graph_growth(graph, node, factory, requirements, max_depth, rng, budget - 1);
                    proof {
                        lemma_grown_trans(old(graph)@, b3, graph@, node_parent, node, old(factory)@.available);
                        assert(graph@.nodes.take(old(graph)@.len() as int) =~= b3.nodes.take(old(graph)@.len() as int)) by {
                            assert forall|i: int| 0 <= i < old(graph)@.len() implies graph@.nodes[i] == b3.nodes[i] by {
                                assert(graph@.nodes.take(b3.len() as int)[i] == b3.nodes.take(b3.len() as int)[i]);
                            }
                        }
                    }
                }
            },
            None => {},
        }
        k = k + 1;
    }
}

/// Generates random graphs by growth from a single root.
pub struct RandomGrowthGraphFactory {
    rng: GeneticRng,
}

/// `g` is what a successful generation gives: a graph that passes the
/// default rules and is no deeper than `max_depth`.
pub open spec fn generated_ok(g: GraphModel, max_depth: usize) -> bool {
    passes_default_rules(g) && max_root_depth(g, g.roots()) <= max_depth
}

/// `r` is what one attempt gives from the factory `f`: without names, the
/// single node `a`; otherwise a root under the factory's next name grown
/// below it, left alone when `requirements` allow a single level only and
/// grown by at least one node when they allow more and the arities leave room.
pub open spec fn attempt_result(r: GraphModel, f: FactoryModel, requirements: GraphRequirements) -> bool {
    if f.available.len() == 0 {
        single_node_graph(r, "a"@)
    } else {
        exists|s: GraphModel|
            {
                &&& #[trigger] single_node_graph(s, f.available[(f.counter % f.available.len()) as int])
                &&& grown_below(s, r, NodeId(0), f.available)
                &&& requirements.max_depth <= 1 ==> r == s
                &&& requirements.max_depth > 1 && requirements.min_arity < usize::MAX && requirements.max_arity
                    < usize::MAX ==> r.len() > 1
            }
    }
}

/// `g` is a graph that one attempt can give from a node factory with the
/// names `avail`.
pub open spec fn growth_attempt(avail: Seq<Seq<char>>, requirements: GraphRequirements, g: GraphModel) -> bool {
    exists|f: FactoryModel| f.available == avail && #[trigger] attempt_result(g, f, requirements)
}

/// What [`RandomGrowthGraphFactory::generate`] gives: the graph of an
/// attempt that passes the default rules within `max_depth`; or, only after
/// `MAX_GRAPH_GEN_ATTEMPTS` attempts that all failed, a single node under
/// one of the names (or `a`).
pub open spec fn generation_result(
    avail: Seq<Seq<char>>,
    requirements: GraphRequirements,
    max_depth: usize,
    r: GraphModel,
) -> bool {
    ||| growth_attempt(avail, requirements, r) && generated_ok(r, max_depth)
    ||| {
        &&& exists|fails: Seq<GraphModel>|
            fails.len() == MAX_GRAPH_GEN_ATTEMPTS && forall|k: int|
                0 <= k < fails.len() ==> growth_attempt(avail, requirements, #[trigger] fails[k]) && fails[k].wf()
                    && !generated_ok(fails[k], max_depth)
        &&& exists|name: Seq<char>| single_node_graph(r, name) && (name == "a"@ || avail.contains(name))
    }
}

/// When every well-formed graph an attempt can give passes the default rules
/// within the depth, generation gives the graph of an attempt, never the
/// single-node fallback; and what it gives either passes or is the fallback.
pub proof fn law_generation_keeps_passing_attempt(
    avail: Seq<Seq<char>>,
    requirements: GraphRequirements,
    max_depth: usize,
    r: GraphModel,
)
    requires
        generation_result(avail, requirements, max_depth, r),
        forall|g: GraphModel| #[trigger] growth_attempt(avail, requirements, g) && g.wf() ==> generated_ok(g, max_depth),
    ensures
        growth_attempt(avail, requirements, r),
        generated_ok(r, max_depth),
{
    if !(growth_attempt(avail, requirements, r) && generated_ok(r, max_depth)) {
        let fails = choose|fails: Seq<GraphModel>|
            fails.len() == MAX_GRAPH_GEN_ATTEMPTS && forall|k: int|
                0 <= k < fails.len() ==> growth_attempt(avail, requirements, #[trigger] fails[k]) && fails[k].wf()
                    && !generated_ok(fails[k], max_depth);
        assert(growth_attempt(avail, requirements, fails[0]));
    }
}

impl RandomGrowthGraphFactory {
    /// The generator the factory draws from.
    pub closed spec fn generator(self) -> GeneticRng {
        self.rng
    }

    /// A factory drawing from `rng`.
    pub fn new(rng: GeneticRng) -> (r: Self)
        ensures
            r.generator() == rng,
    {
        RandomGrowthGraphFactory { rng }
    }

    /// A factory drawing from a generator seeded from the operating system.
    pub fn with_entropy() -> (r: Self) {
        RandomGrowthGraphFactory { rng: GeneticRng::entropy() }
    }

    /// A graph that passes the default rules and is no deeper than
    /// `max_depth` (the requirements' depth when `None`), generated at
    /// random; after too many attempts, a single-node graph.
    pub fn generate(&mut self, factory: &mut OptNodeFactory, requirements: &GraphRequirements, max_depth: Option<usize>) -> (r:
        LinkedGraph)
        ensures
            r@.wf(),
            r@.len() <= growth_limit(),
            final(factory)@.available == old(factory)@.available,
            generated_ok(r@, match max_depth { Some(d) => d, None => requirements.max_depth }) || exists|name: Seq<char>|
                single_node_graph(r@, name) && (name == "a"@ || old(factory)@.available.contains(name)),
            generation_result(
                old(factory)@.available,
                *requirements,
                match max_depth {
                    Some(d) => d,
                    None => requirements.max_depth,
                },
                r@,
            ),
    {
        let md = match max_depth {
            Some(d) => d,
            None => requirements.max_depth,
        };
        let mut n_iter: usize = 0;
        let ghost mut fails: Seq<GraphModel> = Seq::empty();
        while n_iter < MAX_GRAPH_GEN_ATTEMPTS
            invariant
                n_iter <= MAX_GRAPH_GEN_ATTEMPTS,
                fails.len() == n_iter,
                forall|k: int|
                    0 <= k < fails.len() ==> growth_attempt(old(factory)@.available, *requirements, #[trigger] fails[k])
                        && fails[k].wf() && !generated_ok(fails[k], md),
                factory@.available == old(factory)@.available,
                md == match max_depth {
                    Some(d) => d,
                    None => requirements.max_depth,
                },
            decreases MAX_GRAPH_GEN_ATTEMPTS - n_iter,
        {
            let graph = self.try_generate(factory, requirements, md);
            proof {
                assert(growth_attempt(old(factory)@.available, *requirements, graph@));
            }
            if default_graph_verifier(&graph) && graph.rooted_depth() <= md {
                return graph;
            }
            proof {
                let p = fails;
                fails = fails.push(graph@);
                assert forall|k: int|
                    0 <= k < fails.len() implies growth_attempt(old(factory)@.available, *requirements, #[trigger] fails[k])
                        && fails[k].wf() && !generated_ok(fails[k], md) by {
                    if k < p.len() {
                        assert(fails[k] == p[k]);
                    }
                }
            }
            n_iter = n_iter + 1;
        }
        let r = fallback_graph(factory);
        proof {
            let name = choose|name: Seq<char>| single_node_graph(r@, name) && (name == "a"@ || old(factory)@.available.contains(name));
        }
        r
    }

    /// One random graph: a root under the factory's next name (or `a`),
    /// grown when the requirements allow depth beyond one level.
    fn try_generate(&mut self, factory: &mut OptNodeFactory, requirements: &GraphRequirements, max_depth: usize) -> (r:
        LinkedGraph)
        ensures
            r@.wf(),
            r@.len() <= growth_limit(),
            final(factory)@.available == old(factory)@.available,
            attempt_result(r@, old(factory)@, *requirements),
    {
        let root = match factory.get_node(false) {
            Some(content) => content,
            None => {
                proof {
                    reveal_strlit("a");
                }
                return single_node(NodeContent::new(String::from_str("a")));
            },
        };
        let mut graph = single_node(root);
        let ghost s = graph@;
        proof {
            assert(s.nodes.take(s.len() as int) =~= s.nodes);
            assert(s.order.take(s.order.len() as int) =~= s.order);
            assert(grown_below(s, s, NodeId(0), old(factory)@.available));
        }
        if requirements.max_depth > 1 {
            graph_growth(&mut graph, NodeId(0), factory, requirements, max_depth, &mut self.rng, usize::MAX);
        }
        proof {
            assert(single_node_graph(s, old(factory)@.available[(old(factory)@.counter % old(factory)@.available.len()) as int]));
        }
        graph
    }
}

} // verus!
