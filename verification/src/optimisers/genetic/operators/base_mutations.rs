use vstd::prelude::*;
use crate::dag::linked_graph::{GraphModel, LinkedGraph, without};
use crate::dag::node::{NodeContent, NodeId, ReconnectType};
use crate::optimisers::advisor::{GraphAdvisor, RemoveType};
use crate::optimisers::genetic::params::GraphRequirements;
use crate::dag::graph_utils::{collect_ancestors, distance_to_primary_level, graph_has_cycle, max_root_depth, nodes_depth};
use crate::optimisers::random_graph_factory::{growth_limit, RandomGrowthGraphFactory};
use crate::dag::graph_node::root_ids;
use crate::optimisers::genetic::params::{alternatives, next_counter, FactoryModel, OptNodeFactory};
use crate::optimisers::genetic::rng::{GeneticRng, index_range, lemma_permuted_range, lemma_permutation_elements};

verus! {

/// The mutation operators.
#[derive(Clone, Copy, Debug, PartialEq, Eq, Structural, Hash)]
pub enum MutationTypesEnum {
    Simple,
    Growth,
    LocalGrowth,
    TreeGrowth,
    Reduce,
    SingleAdd,
    SingleChange,
    SingleDrop,
    SingleEdge,
    /// No mutation.
    NoMutation,
}

impl MutationTypesEnum {
    /// The mutations that change one spot of a graph.
    pub fn simple_mutation_set() -> (r: Vec<Self>)
        ensures
            r@ == seq![
                MutationTypesEnum::TreeGrowth,
                MutationTypesEnum::SingleAdd,
                MutationTypesEnum::SingleChange,
                MutationTypesEnum::SingleDrop,
                MutationTypesEnum::SingleEdge,
            ],
    {
        let mut r: Vec<Self> = Vec::new();
        r.push(MutationTypesEnum::TreeGrowth);
        r.push(MutationTypesEnum::SingleAdd);
        r.push(MutationTypesEnum::SingleChange);
        r.push(MutationTypesEnum::SingleDrop);
        r.push(MutationTypesEnum::SingleEdge);
        r
    }

    /// The mutations that may change larger parts of a graph.
    pub fn rich_mutation_set() -> (r: Vec<Self>)
        ensures
            r@ == seq![
                MutationTypesEnum::Simple,
                MutationTypesEnum::Reduce,
                MutationTypesEnum::Growth,
                MutationTypesEnum::LocalGrowth,
            ],
    {
        let mut r: Vec<Self> = Vec::new();
        r.push(MutationTypesEnum::Simple);
        r.push(MutationTypesEnum::Reduce);
        r.push(MutationTypesEnum::Growth);
        r.push(MutationTypesEnum::LocalGrowth);
        r
    }
}

/// The names the factory could give a node put in place of `x`.
pub open spec fn replacement_names(g: GraphModel, f: FactoryModel, x: NodeId) -> Seq<Seq<char>> {
    alternatives(f.available, Some(g.nodes[x.0 as int].name))
}

/// `h` is `g` with the active node `x` replaced by a new node named `name`.
pub open spec fn replaced_by(g: GraphModel, x: NodeId, name: Seq<char>, h: GraphModel) -> bool {
    exists|mid: GraphModel|
        g.with_detached(mid, name, Seq::empty(), Seq::empty()) && #[trigger] mid.update_node_result(x, NodeId(g.len() as usize), h)
}

/// `h` is `g` with the active node `x` replaced by a new node under the name
/// that the factory `f` hands out next for `x`.
pub open spec fn renamed_one(g: GraphModel, f: FactoryModel, x: NodeId, h: GraphModel) -> bool {
    let names = replacement_names(g, f, x);
    &&& g.is_active(x)
    &&& names.len() > 0
    &&& replaced_by(g, x, names[(f.counter % names.len()) as int], h)
}

/// What [`single_change_mutation`] may give: when no active node has a name
/// to change to, the graph and the factory's counter as they were; otherwise
/// the counter moves on and one active node takes another name.
pub open spec fn single_change_outcome(g: GraphModel, f0: FactoryModel, f1: FactoryModel, r: GraphModel) -> bool {
    &&& (forall|x: NodeId| g.is_active(x) ==> #[trigger] replacement_names(g, f0, x).len() == 0) ==> r == g && f1.counter
        == f0.counter
    &&& !(forall|x: NodeId| g.is_active(x) ==> #[trigger] replacement_names(g, f0, x).len() == 0) ==> f1.counter
        == next_counter(f0.counter) && exists|x: NodeId| #[trigger] renamed_one(g, f0, x, r)
}

/// Replaces one node, picked at random among those for which the factory has
/// another name, by a new node under that name. The graph is returned
/// unchanged when no node can be renamed.
pub fn single_change_mutation(graph: LinkedGraph, factory: &mut OptNodeFactory, rng: &mut GeneticRng) -> (r: LinkedGraph)
    requires
        graph@.wf(),
        graph@.len() < usize::MAX,
    ensures
        r@.wf(),
        final(factory)@.available == old(factory)@.available,
        single_change_outcome(graph@, old(factory)@, final(factory)@, r@),
{
    let mut work = graph;
    let ghost g0 = work@;
    let n = work.length();
    let mut indices = index_range(n);
    rng.shuffle(&mut indices);
    proof {
        lemma_permuted_range(indices@, n as nat);
    }
    let nodes = work.nodes();
    let mut i: usize = 0;
    while i < indices.len()
        invariant
            work@ == g0,
            g0.wf(),
            g0.len() < usize::MAX,
            nodes@ == g0.order,
            n == g0.order.len(),
            indices@.len() == n,
            forall|k: int| 0 <= k < indices@.len() ==> #[trigger] indices@[k] < n,
            forall|t: usize| t < n ==> #[trigger] indices@.contains(t),
            i <= indices@.len(),
            graph@ == g0,
            factory@.available == old(factory)@.available,
            factory@.counter == old(factory)@.counter,
            forall|k: int| 0 <= k < i ==> #[trigger] replacement_names(g0, old(factory)@, nodes@[indices@[k] as int]).len() == 0,
        decreases indices@.len() - i,
    {
        let node = nodes[indices[i]];
        proof {
            assert(g0.order[indices@[i as int] as int].0 < g0.len());
        }
        let ghost f0 = factory@;
        match factory.exchange_node(&work, node) {
            Some(content) => {
                let ghost names = replacement_names(g0, f0, node);
                let no_parents: Vec<NodeId> = Vec::new();
                let new_id = work.add_detached(content, no_parents.as_slice());
                let ghost mid = work@;
                proof {
                    assert(mid.nodes[g0.len() as int].params =~= Seq::<(String, String)>::empty());
                    assert(crate::dag::linked_graph::dedup(Seq::<NodeId>::empty()) =~= Seq::<NodeId>::empty()) by {
                        crate::dag::linked_graph::lemma_dedup(Seq::<NodeId>::empty());
                    }
                    assert(g0.with_detached(mid, names[(f0.counter % names.len()) as int], Seq::empty(), Seq::empty()));
                    assert(mid.nodes.take(g0.len() as int) == g0.nodes);
                    assert(mid.nodes[node.0 as int] == g0.nodes[node.0 as int]);
                }
                work.update_node(node, new_id);
                proof {
                    assert(g0.is_active(node)) by {
                        assert(g0.order[indices@[i as int] as int] == node);
                    }
                    assert(replaced_by(g0, node, names[(f0.counter % names.len()) as int], work@));
                    assert(renamed_one(g0, old(factory)@, node, work@));
                    assert(replacement_names(g0, old(factory)@, node).len() > 0);
                    assert(!(forall|x: NodeId| g0.is_active(x) ==> #[trigger] replacement_names(g0, old(factory)@, x).len() == 0));
                    assert(exists|x: NodeId| #[trigger] renamed_one(g0, old(factory)@, x, work@));
                    assert(factory@.counter == next_counter(old(factory)@.counter));
                }
                return work;
            },
            None => {},
        }
        i = i + 1;
    }
    proof {
        assert forall|x: NodeId| g0.is_active(x) implies #[trigger] replacement_names(g0, old(factory)@, x).len() == 0 by {
            let q = choose|q: int| 0 <= q < g0.order.len() && g0.order[q] == x;
            assert(indices@.contains(q as usize));
            let k = choose|k: int| 0 <= k < indices@.len() && indices@[k] == q as usize;
            assert(nodes@[indices@[k] as int] == x);
        }
    }
    work
}

/// What removing the active node `x` as advised by `t` does to `g`: the
/// node leaves with its ancestors (nothing happens when a cycle lies above
/// it), or alone with its parents joined to its children, or alone; nothing
/// happens when removal is forbidden.
pub open spec fn removal_result(g: GraphModel, x: NodeId, t: RemoveType, h: GraphModel) -> bool {
    match t {
        RemoveType::WithParents => g.delete_subtree_result(x, h),
        RemoveType::WithDirectChildren => g.delete_subtree_result(x, h),
        RemoveType::NodeRewire => h == g.after_delete_node(x, ReconnectType::All),
        RemoveType::NodeOnly => h == g.after_delete_node(x, ReconnectType::NoReconnect),
        RemoveType::Forbidden => h == g,
    }
}

/// Removes the active node `node` as `advice` says.
pub fn remove_as_advised(graph: &mut LinkedGraph, node: NodeId, advice: RemoveType)
    requires
        old(graph)@.wf(),
        node.0 < old(graph)@.len(),
        old(graph)@.is_active(node),
    ensures
        final(graph)@.wf(),
        removal_result(old(graph)@, node, advice, final(graph)@),
{
    match advice {
        RemoveType::WithParents => graph.delete_subtree(node),
        RemoveType::WithDirectChildren => graph.delete_subtree(node),
        RemoveType::NodeRewire => graph.delete_node(node, ReconnectType::All),
        RemoveType::NodeOnly => graph.delete_node(node, ReconnectType::NoReconnect),
        RemoveType::Forbidden => {},
    }
}

/// What [`single_drop_mutation`] may give: a graph of fewer than two active
/// nodes as it is; otherwise the graph as it is or with an active node
/// removed as the advice allows.
pub open spec fn single_drop_outcome(g: GraphModel, r: GraphModel) -> bool {
    &&& g.order.len() < 2 ==> r == g
    &&& r == g || exists|x: NodeId, t: RemoveType|
        g.is_active(x) && t != RemoveType::Forbidden && #[trigger] removal_result(g, x, t, r)
}

/// Removes one node, picked at random, as the advisor says; up to
/// `max_attempts` picks are made while the advisor forbids the removal. A
/// graph of fewer than two nodes is returned unchanged. A removed node is
/// removed as the advisor says for it; where the advisor forbids no removal,
/// the first pick is removed.
pub fn single_drop_mutation<A: GraphAdvisor>(graph: LinkedGraph, advisor: &A, max_attempts: usize, rng: &mut GeneticRng) -> (r: LinkedGraph)
    requires
        graph@.wf(),
    ensures
        r@.wf(),
        single_drop_outcome(graph@, r@),
        r@ == graph@ || exists|x: NodeId|
            graph@.is_active(x) && advisor.advice(x, graph@) != RemoveType::Forbidden && #[trigger] removal_result(
                graph@,
                x,
                advisor.advice(x, graph@),
                r@,
            ),
        graph@.order.len() >= 2 && max_attempts > 0 && (forall|x: NodeId|
            #[trigger] graph@.is_active(x) ==> advisor.advice(x, graph@) != RemoveType::Forbidden) ==> exists|x: NodeId|
            graph@.is_active(x) && #[trigger] removal_result(graph@, x, advisor.advice(x, graph@), r@),
{
    let mut work = graph;
    let ghost g0 = work@;
    if work.length() < 2 {
        return work;
    }
    let mut attempt: usize = 0;
    while attempt < max_attempts
        invariant
            graph@ == g0,
            work@ == g0,
            g0.wf(),
            g0.order.len() >= 2,
            (forall|x: NodeId| #[trigger] g0.is_active(x) ==> advisor.advice(x, g0) != RemoveType::Forbidden) ==> attempt
                == 0,
        ensures
            work@ == g0,
            (forall|x: NodeId| #[trigger] g0.is_active(x) ==> advisor.advice(x, g0) != RemoveType::Forbidden)
                ==> max_attempts == 0,
        decreases max_attempts - attempt,
    {
        let nodes = work.nodes();
        let choice = rng.random_choice(nodes.as_slice());
        let node = match choice {
            Some(x) => x,
            None => {
                proof {
                    assert(nodes@.len() == g0.order.len());
                }
                break;
            },
        };
        proof {
            let i = choose|i: int| 0 <= i < nodes@.len() && cloned::<NodeId>(nodes@[i], node);
            assert(nodes@[i] == node);
            assert(g0.order[i].0 < g0.len());
            assert(g0.is_active(node));
        }
        let advice = advisor.can_be_removed(node, &work);
        match advice {
            RemoveType::Forbidden => {
                proof {
                    assert(g0.is_active(node) && advisor.advice(node, g0) == RemoveType::Forbidden);
                }
            },
            _ => {
                remove_as_advised(&mut work, node, advice);
                return work;
            },
        }
        attempt = attempt + 1;
    }
    work
}

/// `t` lies above `s`: a walk through parents leads from a parent of `s` to `t`.
pub open spec fn strict_ancestor(g: GraphModel, s: NodeId, t: NodeId) -> bool {
    exists|p: NodeId| #[trigger] g.has_parent(s, p) && g.reaches(p, t)
}

/// A list closed under parents that holds the start of a walk holds its
/// first `k + 1` nodes.
proof fn lemma_closed_path(g: GraphModel, v: Seq<NodeId>, s: Seq<NodeId>, k: int)
    requires
        g.is_path(s),
        v.contains(s[0]),
        g.parent_closed(v),
        0 <= k < s.len(),
    ensures
        v.contains(s[k]),
    decreases k,
{
    if k > 0 {
        lemma_closed_path(g, v, s, k - 1);
        assert(g.has_parent(s[k - 1], s[(k - 1) + 1]));
        let a = choose|a: int| 0 <= a < v.len() && v[a] == s[k - 1];
        let ps = g.parents(s[k - 1]);
        assert(ps.contains(s[k]));
        let j = choose|j: int| 0 <= j < ps.len() && #[trigger] ps[j] == s[k];
        assert(v.contains(g.parents(v[a])[j]));
    }
}

/// Whether `target` does not lie above `source`, so that making `source` a
/// parent of `target` closes no cycle through `source`'s ancestors.
pub fn nodes_not_cycling(g: &LinkedGraph, source: NodeId, target: NodeId) -> (r: bool)
    requires
        g@.wf(),
        source.0 < g@.len(),
    ensures
        r == !strict_ancestor(g@, source, target),
{
    let ps = g.parents_of(source);
    let mut j: usize = 0;
    while j < ps.len()
        invariant
            g@.wf(),
            source.0 < g@.len(),
            ps@ == g@.parents(source),
            j <= ps@.len(),
            forall|t: int| 0 <= t < j ==> !g@.reaches(#[trigger] ps@[t], target),
        decreases ps@.len() - j,
    {
        let p = ps[j];
        proof {
            assert(g@.nodes[source.0 as int].parents[j as int].0 < g@.len());
        }
        let above = collect_ancestors(g, p);
        let mut k: usize = 0;
        while k < above.len()
            invariant
                g@.wf(),
                ps@ == g@.parents(source),
                j < ps@.len(),
                p == ps@[j as int],
                forall|t: int| 0 <= t < above@.len() ==> g@.reaches(p, #[trigger] above@[t]),
                k <= above@.len(),
                forall|t: int| 0 <= t < k ==> above@[t] != target,
            decreases above@.len() - k,
        {
            if above[k] == target {
                proof {
                    assert(g@.reaches(p, above@[k as int]));
                    assert(g@.has_parent(source, p)) by {
                        assert(g@.parents(source)[j as int] == p);
                    }
                }
                return false;
            }
            k = k + 1;
        }
        proof {
            if g@.reaches(p, target) {
                let s = choose|s: Seq<NodeId>| #[trigger] g@.is_path(s) && s[0] == p && s.last() == target;
                assert(above@.contains(s[0])) by {
                    assert(above@[0] == p);
                }
                lemma_closed_path(g@, above@, s, s.len() - 1);
                let q = choose|q: int| 0 <= q < above@.len() && above@[q] == target;
                assert(above@[q] != target);
            }
        }
        j = j + 1;
    }
    proof {
        if strict_ancestor(g@, source, target) {
            let p = choose|p: NodeId| #[trigger] g@.has_parent(source, p) && g@.reaches(p, target);
            let t = choose|t: int| 0 <= t < ps@.len() && ps@[t] == p;
            assert(!g@.reaches(ps@[t], target));
        }
    }
    true
}

/// What [`single_edge_mutation`] may give: a graph of fewer than two active
/// nodes or deeper than `max_depth` as it is; otherwise the graph as it is or
/// with one new edge between two active nodes that closes no cycle.
pub open spec fn single_edge_outcome(g: GraphModel, max_depth: usize, r: GraphModel) -> bool {
    &&& g.order.len() < 2 || max_root_depth(g, g.roots()) > max_depth ==> r == g
    &&& r == g || exists|s: NodeId, t: NodeId|
        {
            &&& g.is_active(s)
            &&& g.is_active(t)
            &&& s != t
            &&& !g.has_parent(t, s)
            &&& !g.acyclic() || !strict_ancestor(g, s, t)
            &&& r == #[trigger] g.with_parents(t, g.parents(t).push(s))
        }
}

/// Any two distinct active nodes of `g` could take a new edge: neither lists
/// the other as a parent, and in an acyclic graph neither lies above the
/// other.
pub open spec fn every_edge_open(g: GraphModel) -> bool {
    forall|s: NodeId, t: NodeId|
        #![trigger g.is_active(s), g.is_active(t)]
        g.is_active(s) && g.is_active(t) && s != t ==> !g.has_parent(t, s) && (!g.acyclic() || !strict_ancestor(g, s, t))
}

/// Adds one edge between two distinct nodes picked at random, unless it is
/// there already or would close a cycle through the ancestors of its source
/// (a graph that has a cycle already takes any new edge); up to
/// `max_attempts` picks are made. Small graphs and graphs deeper than the
/// requirements allow are returned unchanged. Where any pick would do, the
/// first one gets its edge.
pub fn single_edge_mutation(
    graph: LinkedGraph,
    requirements: &GraphRequirements,
    max_attempts: usize,
    rng: &mut GeneticRng,
) -> (r: LinkedGraph)
    requires
        graph@.wf(),
        graph@.len() < usize::MAX,
    ensures
        r@.wf(),
        single_edge_outcome(graph@, requirements.max_depth, r@),
        graph@.order.len() >= 2 && max_root_depth(graph@, graph@.roots()) <= requirements.max_depth && max_attempts > 0
            && every_edge_open(graph@) ==> r@ != graph@,
{
    let mut work = graph;
    let ghost g0 = work@;
    if work.length() < 2 || work.rooted_depth() > requirements.max_depth {
        return work;
    }
    let mut attempt: usize = 0;
    while attempt < max_attempts
        invariant
            graph@ == g0,
            work@ == g0,
            g0.wf(),
            g0.len() < usize::MAX,
            !(g0.order.len() < 2 || max_root_depth(g0, g0.roots()) > requirements.max_depth),
            every_edge_open(g0) ==> attempt == 0,
        decreases max_attempts - attempt,
    {
        let nodes = work.nodes();
        let sampled = rng.sample(nodes.as_slice(), 2);
        if sampled.len() < 2 {
            return work;
        }
        let source = sampled[0];
        let target = sampled[1];
        proof {
            let idx = choose|idx: Seq<int>|
                {
                    &&& idx.len() == sampled@.len()
                    &&& idx.no_duplicates()
                    &&& forall|k: int| 0 <= k < idx.len() ==> 0 <= #[trigger] idx[k] < nodes@.len() && cloned::<NodeId>(nodes@[idx[k]], sampled@[k])
                };
            assert(0 <= idx[0] < nodes@.len() && cloned::<NodeId>(nodes@[idx[0]], sampled@[0]));
            assert(0 <= idx[1] < nodes@.len() && cloned::<NodeId>(nodes@[idx[1]], sampled@[1]));
            assert(nodes@[idx[0]] == source);
            assert(nodes@[idx[1]] == target);
            assert(idx[0] != idx[1]);
            assert(g0.order[idx[0]].0 < g0.len());
            assert(g0.order[idx[1]].0 < g0.len());
            assert(g0.is_active(source) && g0.is_active(target));
        }
        let already_connected = work.has_parent(target, source);
        if !already_connected {
            let allowed = graph_has_cycle(&work) || nodes_not_cycling(&work, source, target);
            if allowed {
                work.connect_nodes(source, target);
                proof {
                    assert(work@.nodes[target.0 as int].parents.len() == g0.parents(target).len() + 1);
                    assert(work@ != g0);
                }
                return work;
            }
        }
        proof {
            if every_edge_open(g0) {
                assert(g0.is_active(source) && g0.is_active(target));
            }
        }
        attempt = attempt + 1;
    }
    work
}

/// The name the factory hands out next for a new node.
pub open spec fn next_name(f: FactoryModel) -> Seq<char> {
    f.available[(f.counter % f.available.len()) as int]
}

/// The id a new node of `g` gets.
pub open spec fn fresh(g: GraphModel) -> NodeId {
    NodeId(g.len() as usize)
}

/// `h` is `g` with a new node named `name` put between the active node `x`
/// and its parents: the new node takes over the parents of `x` and becomes
/// the only parent of `x`.
pub open spec fn inserted_between(g: GraphModel, x: NodeId, name: Seq<char>, h: GraphModel) -> bool {
    exists|mid: GraphModel|
        g.with_detached(mid, name, Seq::empty(), g.parents(x)) && #[trigger] mid.with_parents(x, seq![fresh(g)]).add_node_result(
            fresh(g),
            h,
        )
}

/// A new node's content, as the factory hands it out, meets the model.
proof fn lemma_new_content(content: NodeContent, name: Seq<char>)
    requires
        content.name@ == name,
        content.params@.len() == 0,
    ensures
        content.params@ == Seq::<(String, String)>::empty(),
{
    assert(content.params@ =~= Seq::<(String, String)>::empty());
}

/// What [`add_intermediate_node`] may give from `g` with the factory `f`,
/// which becomes `f2`.
pub open spec fn intermediate_outcome(g: GraphModel, f: FactoryModel, f2: FactoryModel, h: GraphModel) -> bool {
    &&& f2.available == f.available
    &&& f.available.len() == 0 || (forall|x: NodeId| g.is_active(x) ==> #[trigger] g.parents(x).len() == 0) ==> h == g
        && f2.counter == f.counter
    &&& !(f.available.len() == 0 || (forall|x: NodeId| g.is_active(x) ==> #[trigger] g.parents(x).len() == 0))
        ==> f2.counter == next_counter(f.counter) && exists|x: NodeId|
        g.is_active(x) && g.parents(x).len() > 0 && #[trigger] inserted_between(g, x, next_name(f), h)
}

/// What [`add_separate_parent_node`] may give from `g` with the factory `f`,
/// which becomes `f2`.
pub open spec fn separate_parent_outcome(g: GraphModel, f: FactoryModel, f2: FactoryModel, h: GraphModel) -> bool {
    &&& f2.available == f.available
    &&& f.available.len() == 0 || g.order.len() == 0 ==> h == g && f2.counter == f.counter
    &&& !(f.available.len() == 0 || g.order.len() == 0) ==> f2.counter == next_counter(f.counter) && exists|x: NodeId|
        g.is_active(x) && #[trigger] parent_added(g, x, next_name(f), h)
}

/// What [`add_as_child`] may give from `g` with the factory `f`, which
/// becomes `f2`.
pub open spec fn as_child_outcome(g: GraphModel, f: FactoryModel, f2: FactoryModel, h: GraphModel) -> bool {
    &&& f2.available == f.available
    &&& f.available.len() == 0 || g.order.len() == 0 ==> h == g && f2.counter == f.counter
    &&& !(f.available.len() == 0 || g.order.len() == 0) ==> f2.counter == next_counter(f.counter) && exists|
        x: NodeId,
        c: Option<NodeId>,
    |
        {
            &&& g.is_active(x)
            &&& (c is None <==> g.children(x).len() == 0)
            &&& (c is Some ==> g.children(x).contains(c->0))
            &&& #[trigger] child_inserted(g, x, next_name(f), c, h)
        }
}

/// Puts a new node between a node, picked at random among those with parents,
/// and its parents. The graph is returned unchanged when no node has parents
/// or the factory has no name.
pub fn add_intermediate_node(graph: LinkedGraph, factory: &mut OptNodeFactory, rng: &mut GeneticRng) -> (r: LinkedGraph)
    requires
        graph@.wf(),
        graph@.len() < usize::MAX,
    ensures
        r@.wf(),
        r@.len() <= graph@.len() + 1,
        intermediate_outcome(graph@, old(factory)@, final(factory)@, r@),
{
    let mut work = graph;
    let ghost g0 = work@;
    let ghost pred = |x: NodeId| g0.parents(x).len() > 0;
    let order = work.nodes();
    let mut with_parents: Vec<NodeId> = Vec::new();
    let mut i: usize = 0;
    while i < order.len()
        invariant
            work@ == g0,
            g0.wf(),
            order@ == g0.order,
            pred == (|x: NodeId| g0.parents(x).len() > 0),
            i <= order@.len(),
            with_parents@ == order@.take(i as int).filter(pred),
        decreases order@.len() - i,
    {
        let x = order[i];
        proof {
            assert(g0.order[i as int].0 < g0.len());
            assert(order@.take(i + 1) =~= order@.take(i as int).push(x));
            order@.take(i as int).lemma_filter_push(x, pred);
        }
        if work.parents_of(x).len() > 0 {
            with_parents.push(x);
        }
        i = i + 1;
    }
    proof {
        assert(order@.take(order@.len() as int) =~= order@);
    }
    let ghost list = with_parents@;
    if with_parents.len() == 0 {
        proof {
            assert forall|x: NodeId| g0.is_active(x) implies #[trigger] g0.parents(x).len() == 0 by {
                if g0.parents(x).len() > 0 {
                    crate::dag::linked_graph::lemma_filter_contains_iff(g0.order, pred, x);
                    assert(list.contains(x));
                }
            }
        }
        return work;
    }
    rng.shuffle(&mut with_parents);
    proof {
        lemma_permutation_elements(with_parents@, list);
    }
    let mut i: usize = 0;
    while i < with_parents.len()
        invariant
            graph@ == g0,
            work@ == g0,
            g0.wf(),
            g0.len() < usize::MAX,
            pred == (|x: NodeId| g0.parents(x).len() > 0),
            list == g0.order.filter(pred),
            list.len() > 0,
            with_parents@.len() == list.len(),
            forall|k: int| 0 <= k < with_parents@.len() ==> list.contains(#[trigger] with_parents@[k]),
            i <= with_parents@.len(),
            factory@.available == old(factory)@.available,
            factory@.counter == old(factory)@.counter,
            i > 0 ==> old(factory)@.available.len() == 0,
        decreases with_parents@.len() - i,
    {
        let node = with_parents[i];
        proof {
            assert(list.contains(node));
            crate::dag::linked_graph::lemma_filter_contains_iff(g0.order, pred, node);
            let q = choose|q: int| 0 <= q < g0.order.len() && g0.order[q] == node;
            assert(g0.order[q].0 < g0.len());
        }
        let ghost f0 = factory@;
        match factory.get_parent_node(node, false) {
            Some(content) => {
                let parents = work.parents_of(node).clone();
                proof {
                    assert(parents@ =~= g0.parents(node));
                    assert forall|k: int| 0 <= k < parents@.len() implies (#[trigger] parents@[k]).0 < g0.len() by {
                        assert(g0.nodes[node.0 as int].parents[k].0 < g0.len());
                    }
                    lemma_new_content(content, next_name(f0));
                }
                let new_id = work.add_detached(content, parents.as_slice());
                let ghost mid = work@;
                let mut only: Vec<NodeId> = Vec::new();
                only.push(new_id);
                proof {
                    assert(only@ =~= seq![fresh(g0)]);
                    assert(mid.nodes.take(g0.len() as int) == g0.nodes);
                    assert(mid.nodes[node.0 as int] == g0.nodes[node.0 as int]);
                    assert(g0.with_detached(mid, next_name(f0), Seq::empty(), g0.parents(node)));
                }
                work.set_parents(node, only);
                work.add_node(new_id);
                proof {
                    assert(inserted_between(g0, node, next_name(old(factory)@), work@));
                }
                return work;
            },
            None => {},
        }
        i = i + 1;
    }
    work
}

/// `h` is `g` with a new node named `name` added as one more parent of the
/// active node `x`.
pub open spec fn parent_added(g: GraphModel, x: NodeId, name: Seq<char>, h: GraphModel) -> bool {
    exists|mid: GraphModel|
        g.with_detached(mid, name, Seq::empty(), Seq::empty()) && #[trigger] mid.with_parents(
            x,
            g.parents(x).push(fresh(g)),
        ).add_node_result(fresh(g), h)
}

/// Gives a node, picked at random, a new parent. The graph is returned
/// unchanged when it is empty or the factory has no name.
pub fn add_separate_parent_node(graph: LinkedGraph, factory: &mut OptNodeFactory, rng: &mut GeneticRng) -> (r: LinkedGraph)
    requires
        graph@.wf(),
        graph@.len() < usize::MAX,
    ensures
        r@.wf(),
        r@.len() <= graph@.len() + 1,
        separate_parent_outcome(graph@, old(factory)@, final(factory)@, r@),
{
    let mut work = graph;
    let ghost g0 = work@;
    let n = work.length();
    let mut indices = index_range(n);
    rng.shuffle(&mut indices);
    proof {
        lemma_permuted_range(indices@, n as nat);
    }
    let nodes = work.nodes();
    let mut i: usize = 0;
    while i < indices.len()
        invariant
            graph@ == g0,
            work@ == g0,
            g0.wf(),
            g0.len() < usize::MAX,
            nodes@ == g0.order,
            n == g0.order.len(),
            indices@.len() == n,
            forall|k: int| 0 <= k < indices@.len() ==> #[trigger] indices@[k] < n,
            i <= indices@.len(),
            factory@.available == old(factory)@.available,
            factory@.counter == old(factory)@.counter,
            i > 0 ==> old(factory)@.available.len() == 0,
        decreases indices@.len() - i,
    {
        let node = nodes[indices[i]];
        proof {
            assert(g0.order[indices@[i as int] as int].0 < g0.len());
            assert(g0.is_active(node)) by {
                assert(g0.order[indices@[i as int] as int] == node);
            }
        }
        let ghost f0 = factory@;
        match factory.get_parent_node(node, true) {
            Some(content) => {
                proof {
                    lemma_new_content(content, next_name(f0));
                }
                let no_parents: Vec<NodeId> = Vec::new();
                let new_id = work.add_detached(content, no_parents.as_slice());
                let ghost mid = work@;
                let mut ps = work.parents_of(node).clone();
                proof {
                    assert(mid.nodes.take(g0.len() as int) == g0.nodes);
                    assert(mid.nodes[node.0 as int] == g0.nodes[node.0 as int]);
                    assert(ps@ =~= g0.parents(node));
                    crate::dag::linked_graph::lemma_dedup(Seq::<NodeId>::empty());
                    assert(crate::dag::linked_graph::dedup(Seq::<NodeId>::empty()) =~= Seq::<NodeId>::empty());
                    assert(g0.with_detached(mid, next_name(f0), Seq::empty(), Seq::empty()));
                }
                ps.push(new_id);
                proof {
                    assert forall|k: int| 0 <= k < ps@.len() implies (#[trigger] ps@[k]).0 < mid.len() by {
                        if k < g0.parents(node).len() {
                            assert(g0.nodes[node.0 as int].parents[k].0 < g0.len());
                        }
                    }
                }
                proof {
                    assert(ps@ =~= g0.parents(node).push(fresh(g0)));
                }
                work.set_parents(node, ps);
                let ghost m2 = work@;
                work.add_node(new_id);
                proof {
                    assert(m2 == mid.with_parents(node, g0.parents(node).push(fresh(g0))));
                    assert(m2.add_node_result(fresh(g0), work@));
                    assert(parent_added(g0, node, next_name(old(factory)@), work@));
                }
                return work;
            },
            None => {},
        }
        i = i + 1;
    }
    work
}

/// The last steps of [`add_as_child`] on `m3`, where the new node `new`
/// already hangs below `x`: with a child `c` of `x`, `c` takes `new` as a
/// parent in place of `x`, and what became disconnected above is pruned.
pub open spec fn child_rewired(m3: GraphModel, x: NodeId, c: Option<NodeId>, new: NodeId, h: GraphModel) -> bool {
    match c {
        None => h == m3,
        Some(c) => {
            let m4 = m3.with_parents(c, m3.parents(c).push(new));
            m4.with_parents(c, without(m4.parents(c), x)).cleanup_result(x, h)
        },
    }
}

/// `h` is `g` with a new node named `name` hung below the active node `x`,
/// and put between `x` and its child `c` when one is given.
pub open spec fn child_inserted(g: GraphModel, x: NodeId, name: Seq<char>, c: Option<NodeId>, h: GraphModel) -> bool {
    exists|mid: GraphModel, m2: GraphModel|
        g.with_detached(mid, name, Seq::empty(), Seq::empty()) && #[trigger] mid.add_node_result(fresh(g), m2)
            && child_rewired(m2.with_parents(fresh(g), seq![x]), x, c, fresh(g), h)
}

/// Hangs a new node below a node picked at random; when that node has
/// children, the new node goes between it and one of them, picked at random.
/// The graph is returned unchanged when it is empty or the factory has no
/// name.
pub fn add_as_child(graph: LinkedGraph, factory: &mut OptNodeFactory, rng: &mut GeneticRng) -> (r: LinkedGraph)
    requires
        graph@.wf(),
        graph@.len() < usize::MAX,
    ensures
        r@.wf(),
        r@.len() <= graph@.len() + 1,
        as_child_outcome(graph@, old(factory)@, final(factory)@, r@),
{
    let mut work = graph;
    let ghost g0 = work@;
    let n = work.length();
    let mut indices = index_range(n);
    rng.shuffle(&mut indices);
    proof {
        lemma_permuted_range(indices@, n as nat);
    }
    let nodes = work.nodes();
    let mut i: usize = 0;
    while i < indices.len()
        invariant
            graph@ == g0,
            work@ == g0,
            g0.wf(),
            g0.len() < usize::MAX,
            nodes@ == g0.order,
            n == g0.order.len(),
            indices@.len() == n,
            forall|k: int| 0 <= k < indices@.len() ==> #[trigger] indices@[k] < n,
            i <= indices@.len(),
            factory@.available == old(factory)@.available,
            factory@.counter == old(factory)@.counter,
            i > 0 ==> old(factory)@.available.len() == 0,
        decreases indices@.len() - i,
    {
        let node = nodes[indices[i]];
        proof {
            assert(g0.order[indices@[i as int] as int].0 < g0.len());
            assert(g0.is_active(node)) by {
                assert(g0.order[indices@[i as int] as int] == node);
            }
        }
        let old_node_children = work.node_children(node);
        let new_node_child = rng.random_choice(old_node_children.as_slice());
        let ghost f0 = factory@;
        match factory.get_node(false) {
            Some(content) => {
                proof {
                    lemma_new_content(content, next_name(f0));
                }
                let no_parents: Vec<NodeId> = Vec::new();
                let new_id = work.add_detached(content, no_parents.as_slice());
                let ghost mid = work@;
                proof {
                    assert(mid.nodes.take(g0.len() as int) == g0.nodes);
                    crate::dag::linked_graph::lemma_dedup(Seq::<NodeId>::empty());
                    assert(crate::dag::linked_graph::dedup(Seq::<NodeId>::empty()) =~= Seq::<NodeId>::empty());
                    assert(g0.with_detached(mid, next_name(f0), Seq::empty(), Seq::empty()));
                    assert(mid.nodes[node.0 as int] == g0.nodes[node.0 as int]);
                }
                work.add_node(new_id);
                let ghost m2 = work@;
                work.connect_nodes(node, new_id);
                let ghost m3 = work@;
                proof {
                    assert(!m2.has_parent(new_id, node));
                    assert(m2.parents(new_id).push(node) =~= seq![node]);
                    assert(m3 == m2.with_parents(fresh(g0), seq![node]));
                }
                match new_node_child {
                    Some(child) => {
                        proof {
                            let q = choose|q: int| 0 <= q < old_node_children@.len() && cloned::<NodeId>(old_node_children@[q], child);
                            assert(old_node_children@[q] == child);
                            assert(g0.children(node).contains(child));
                            crate::dag::linked_graph::lemma_filter_contains_iff(g0.order, g0.child_pred(node), child);
                            let t = choose|t: int| 0 <= t < g0.order.len() && g0.order[t] == child;
                            assert(g0.order[t].0 < g0.len());
                            assert(g0.has_parent(child, node));
                            assert(m3.parents(child) == g0.parents(child));
                            assert(!m3.has_parent(child, new_id)) by {
                                if m3.has_parent(child, new_id) {
                                    let j = choose|j: int| 0 <= j < g0.parents(child).len() && g0.parents(child)[j] == new_id;
                                    assert(g0.nodes[child.0 as int].parents[j].0 < g0.len());
                                }
                            }
                        }
                        work.connect_nodes(new_id, child);
                        let ghost m4 = work@;
                        proof {
                            assert(m4 == m3.with_parents(child, m3.parents(child).push(fresh(g0))));
                            assert(m4.has_parent(child, node)) by {
                                let j = choose|j: int| 0 <= j < g0.parents(child).len() && g0.parents(child)[j] == node;
                                assert(m4.parents(child)[j] == node);
                            }
                            assert(m2.order.take(g0.order.len() as int) == g0.order);
                            assert(m4.is_active(node)) by {
                                let t = choose|t: int| 0 <= t < g0.order.len() && g0.order[t] == node;
                                assert(m4.order[t] == node);
                            }
                            assert(m4.is_active(child)) by {
                                let t = choose|t: int| 0 <= t < g0.order.len() && g0.order[t] == child;
                                assert(m4.order[t] == child);
                            }
                        }
                        work.disconnect_nodes(node, child, true);
                        proof {
                            assert(child_rewired(m3, node, Some(child), fresh(g0), work@));
                            assert(child_inserted(g0, node, next_name(old(factory)@), Some(child), work@));
                        }
                    },
                    None => {
                        proof {
                            assert(child_rewired(m3, node, None, fresh(g0), work@));
                            assert(child_inserted(g0, node, next_name(old(factory)@), None, work@));
                        }
                    },
                }
                return work;
            },
            None => {},
        }
        i = i + 1;
    }
    work
}

/// Every child of `x` keeps at least `min_arity` parents once `x` is gone.
pub open spec fn arity_allows_removal(g: GraphModel, x: NodeId, min_arity: usize) -> bool {
    forall|c: NodeId| #[trigger] g.children(x).contains(c) ==> keeps_arity(g, c, min_arity)
}

/// `x` is active and is not the graph's first root.
pub open spec fn reducible(g: GraphModel, x: NodeId) -> bool {
    &&& g.is_active(x)
    &&& (g.roots().len() == 0 || x != g.roots()[0])
}

/// `h` is `g` with the subtree of `x` replaced by a new node named `name`.
pub open spec fn subtree_replaced(g: GraphModel, x: NodeId, name: Seq<char>, h: GraphModel) -> bool {
    exists|mid: GraphModel|
        g.with_detached(mid, name, Seq::empty(), Seq::empty()) && #[trigger] mid.update_subtree_result(x, fresh(g), h)
}

/// What [`reduce_mutation`] may give from `g` with the factory `f`, which
/// becomes `f2`: `g` itself when no candidate can go (none may lose its
/// subtree and the factory has no name); `g` without the subtree of a
/// candidate whose children keep enough parents; or `g` with the subtree of
/// a candidate replaced by a new node under the factory's next name.
pub open spec fn reduce_outcome(g: GraphModel, f: FactoryModel, f2: FactoryModel, min_arity: usize, h: GraphModel) -> bool {
    ||| {
        &&& h == g
        &&& f2.counter == f.counter
        &&& forall|x: NodeId|
            #[trigger] reducible(g, x) ==> !arity_allows_removal(g, x, min_arity) && f.available.len() == 0
    }
    ||| exists|x: NodeId|
        {
            &&& #[trigger] reducible(g, x)
            &&& arity_allows_removal(g, x, min_arity)
            &&& g.delete_subtree_result(x, h)
            &&& f2.counter == f.counter
        }
    ||| exists|x: NodeId|
        {
            &&& #[trigger] reducible(g, x)
            &&& !arity_allows_removal(g, x, min_arity)
            &&& f.available.len() > 0
            &&& f2.counter == next_counter(f.counter)
            &&& subtree_replaced(g, x, next_name(f), h)
        }
}

/// A child `c` keeps at least `min_arity` parents once one is gone.
pub open spec fn keeps_arity(g: GraphModel, c: NodeId, min_arity: usize) -> bool {
    (if g.parents(c).len() >= 1 {
        g.parents(c).len() - 1
    } else {
        0
    }) >= min_arity
}

/// Whether every child of `node` keeps at least `min_arity` parents once
/// `node` is gone.
fn removal_keeps_arity(g: &LinkedGraph, node: NodeId, min_arity: usize) -> (r: bool)
    requires
        g@.wf(),
    ensures
        r == arity_allows_removal(g@, node, min_arity),
{
    let children = g.node_children(node);
    let mut k: usize = 0;
    while k < children.len()
        invariant
            g@.wf(),
            children@ == g@.children(node),
            k <= children@.len(),
            forall|t: int| 0 <= t < k ==> keeps_arity(g@, #[trigger] children@[t], min_arity),
        decreases children@.len() - k,
    {
        let c = children[k];
        proof {
            g@.order.lemma_filter_pred(g@.child_pred(node), k as int);
            assert(g@.children(node).contains(c)) by {
                assert(g@.children(node)[k as int] == c);
            }
            crate::dag::linked_graph::lemma_filter_contains_iff(g@.order, g@.child_pred(node), c);
            let t = choose|t: int| 0 <= t < g@.order.len() && g@.order[t] == c;
            assert(g@.order[t].0 < g@.len());
        }
        let len = g.parents_of(c).len();
        let remaining = if len >= 1 { len - 1 } else { 0 };
        if remaining < min_arity {
            return false;
        }
        k = k + 1;
    }
    proof {
        assert forall|c: NodeId| #[trigger] g@.children(node).contains(c) implies keeps_arity(g@, c, min_arity) by {
            let t = choose|t: int| 0 <= t < children@.len() && children@[t] == c;
        }
    }
    true
}

/// What [`reduce_mutation`] may give: a graph of one active node, and the
/// factory's counter, as they were; otherwise what [`reduce_outcome`] says.
pub open spec fn reduce_full_outcome(g: GraphModel, f0: FactoryModel, f1: FactoryModel, min_arity: usize, r: GraphModel) -> bool {
    &&& g.order.len() == 1 ==> r == g && f1.counter == f0.counter
    &&& g.order.len() != 1 ==> reduce_outcome(g, f0, f1, min_arity, r)
}

/// Removes the subtree of a node picked at random (never the first root)
/// when its children keep enough parents without it; otherwise replaces that
/// subtree by a new primary node, or, when the factory has no name, tries the
/// next node. A graph of one node is returned unchanged.
pub fn reduce_mutation(
    graph: LinkedGraph,
    requirements: &GraphRequirements,
    factory: &mut OptNodeFactory,
    rng: &mut GeneticRng,
) -> (r: LinkedGraph)
    requires
        graph@.wf(),
        2 * (graph@.len() + 1) <= usize::MAX,
    ensures
        r@.wf(),
        final(factory)@.available == old(factory)@.available,
        reduce_full_outcome(graph@, old(factory)@, final(factory)@, requirements.min_arity, r@),
{
    let mut work = graph;
    let ghost g0 = work@;
    if work.length() == 1 {
        return work;
    }
    let root = work.root_node();
    let order = work.nodes();
    let ghost pred = |x: NodeId| g0.roots().len() == 0 || x != g0.roots()[0];
    let mut candidates: Vec<NodeId> = Vec::new();
    let mut i: usize = 0;
    while i < order.len()
        invariant
            work@ == g0,
            g0.wf(),
            order@ == g0.order,
            root == (if g0.roots().len() > 0 { Some(g0.roots()[0]) } else { None::<NodeId> }),
            pred == (|x: NodeId| g0.roots().len() == 0 || x != g0.roots()[0]),
            i <= order@.len(),
            candidates@ == order@.take(i as int).filter(pred),
        decreases order@.len() - i,
    {
        let x = order[i];
        let keep = match root {
            Some(r0) => x != r0,
            None => true,
        };
        if keep {
            candidates.push(x);
        }
        proof {
            assert(order@.take(i + 1) =~= order@.take(i as int).push(x));
            order@.take(i as int).lemma_filter_push(x, pred);
        }
        i = i + 1;
    }
    proof {
        assert(order@.take(order@.len() as int) =~= order@);
    }
    let m = candidates.len();
    let mut idx = index_range(m);
    rng.shuffle(&mut idx);
    proof {
        lemma_permuted_range(idx@, m as nat);
    }
    let mut i: usize = 0;
    while i < idx.len()
        invariant
            graph@ == g0,
            work@ == g0,
            g0.wf(),
            2 * (g0.len() + 1) <= usize::MAX,
            g0.order.len() != 1,
            pred == (|x: NodeId| g0.roots().len() == 0 || x != g0.roots()[0]),
            candidates@ == g0.order.filter(pred),
            m == candidates@.len(),
            idx@.len() == m,
            forall|k: int| 0 <= k < idx@.len() ==> #[trigger] idx@[k] < m,
            forall|t: usize| t < m ==> #[trigger] idx@.contains(t),
            i <= idx@.len(),
            factory@.available == old(factory)@.available,
            factory@.counter == old(factory)@.counter,
            i > 0 ==> old(factory)@.available.len() == 0,
            forall|k: int|
                0 <= k < i ==> !arity_allows_removal(g0, #[trigger] candidates@[idx@[k] as int], requirements.min_arity),
        decreases idx@.len() - i,
    {
        let node = candidates[idx[i]];
        proof {
            g0.order.lemma_filter_pred(pred, idx@[i as int] as int);
            assert(candidates@.contains(node)) by {
                assert(candidates@[idx@[i as int] as int] == node);
            }
            crate::dag::linked_graph::lemma_filter_contains_iff(g0.order, pred, node);
            let q = choose|q: int| 0 <= q < g0.order.len() && g0.order[q] == node;
            assert(g0.order[q].0 < g0.len());
            assert(reducible(g0, node));
        }
        if removal_keeps_arity(&work, node, requirements.min_arity) {
            work.delete_subtree(node);
            return work;
        }
        let ghost f0 = factory@;
        match factory.get_node(true) {
            Some(content) => {
                proof {
                    lemma_new_content(content, next_name(f0));
                }
                let no_parents: Vec<NodeId> = Vec::new();
                let new_id = work.add_detached(content, no_parents.as_slice());
                proof {
                    crate::dag::linked_graph::lemma_dedup(Seq::<NodeId>::empty());
                    assert(crate::dag::linked_graph::dedup(Seq::<NodeId>::empty()) =~= Seq::<NodeId>::empty());
                    assert(g0.with_detached(work@, next_name(f0), Seq::empty(), Seq::empty()));
                }
                let ghost mid = work@;
                work.update_subtree(node, new_id);
                proof {
                    assert(new_id == fresh(g0));
                    assert(mid.update_subtree_result(node, fresh(g0), work@));
                    assert(g0.with_detached(mid, next_name(f0), Seq::empty(), Seq::empty()));
                    assert(f0 == old(factory)@);
                    assert(subtree_replaced(g0, node, next_name(old(factory)@), work@));
                }
                return work;
            },
            None => {},
        }
        i = i + 1;
    }
    proof {
        assert forall|x: NodeId| #[trigger] reducible(g0, x) implies !arity_allows_removal(g0, x, requirements.min_arity)
            && old(factory)@.available.len() == 0 by {
            crate::dag::linked_graph::lemma_filter_contains_iff(g0.order, pred, x);
            let j = choose|j: int| 0 <= j < candidates@.len() && candidates@[j] == x;
            assert(idx@.contains(j as usize));
            let k = choose|k: int| 0 <= k < idx@.len() && idx@[k] == j as usize;
            assert(candidates@[idx@[k] as int] == x);
        }
    }
    work
}

/// The ways [`single_add_mutation`] may add a node.
#[derive(Clone, Copy, Debug, PartialEq, Eq, Structural)]
pub enum AddStrategy {
    AsChild,
    SeparateParent,
    Intermediate,
}

/// What adding a node by `s` may give from `g` with the factory `f`, which
/// becomes `f2`.
pub open spec fn add_outcome(s: AddStrategy, g: GraphModel, f: FactoryModel, f2: FactoryModel, h: GraphModel) -> bool {
    match s {
        AddStrategy::AsChild => as_child_outcome(g, f, f2, h),
        AddStrategy::SeparateParent => separate_parent_outcome(g, f, f2, h),
        AddStrategy::Intermediate => intermediate_outcome(g, f, f2, h),
    }
}

/// `c` is a deep copy of `g`: the same nodes, names, parameters, parents and
/// order, with uids of its own.
pub open spec fn clone_of(g: GraphModel, c: GraphModel) -> bool {
    &&& c.wf()
    &&& c.order == g.order
    &&& c.nodes.len() == g.nodes.len()
    &&& forall|k: int|
        0 <= k < g.nodes.len() ==> {
            &&& (#[trigger] c.nodes[k]).name == g.nodes[k].name
            &&& c.nodes[k].params == g.nodes[k].params
            &&& c.nodes[k].parents == g.nodes[k].parents
        }
}

/// Adds a node by the strategy `s`.
pub fn apply_add_strategy(s: AddStrategy, graph: LinkedGraph, factory: &mut OptNodeFactory, rng: &mut GeneticRng) -> (r: LinkedGraph)
    requires
        graph@.wf(),
        graph@.len() < usize::MAX,
    ensures
        r@.wf(),
        r@.len() <= graph@.len() + 1,
        add_outcome(s, graph@, old(factory)@, final(factory)@, r@),
{
    match s {
        AddStrategy::AsChild => add_as_child(graph, factory, rng),
        AddStrategy::SeparateParent => add_separate_parent_node(graph, factory, rng),
        AddStrategy::Intermediate => add_intermediate_node(graph, factory, rng),
    }
}

/// What [`single_add_mutation`] may give: a graph at or beyond `max_depth`
/// as it is; otherwise the graph as it is, or a copy of it grown by one node
/// by an add strategy, with root descriptive ids that differ from the
/// graph's.
pub open spec fn single_add_outcome(g: GraphModel, f0: FactoryModel, max_depth: usize, r: GraphModel) -> bool {
    &&& max_root_depth(g, g.roots()) >= max_depth ==> r == g
    &&& r == g || exists|s: AddStrategy, c: GraphModel, o: GraphModel, f1: FactoryModel, f2: FactoryModel|
        #![trigger add_outcome(s, c, f1, f2, r), clone_of(g, o)]
        {
            &&& clone_of(g, c)
            &&& clone_of(g, o)
            &&& f1.available == f0.available
            &&& add_outcome(s, c, f1, f2, r)
            &&& root_ids(r) != root_ids(o)
        }
}

/// Adds a node by one of the three strategies, tried in random order on a
/// copy of the graph until one gives a graph that differs (by its roots'
/// descriptive ids) from the input. Graphs as deep as the requirements
/// allow, and graphs no strategy changes, are returned unchanged.
pub fn single_add_mutation(
    graph: LinkedGraph,
    requirements: &GraphRequirements,
    factory: &mut OptNodeFactory,
    rng: &mut GeneticRng,
) -> (r: LinkedGraph)
    requires
        graph@.wf(),
        graph@.len() + 1 < usize::MAX,
    ensures
        r@.wf(),
        final(factory)@.available == old(factory)@.available,
        single_add_outcome(graph@, old(factory)@, requirements.max_depth, r@),
{
    let work = graph;
    let ghost g0 = work@;
    if work.rooted_depth() >= requirements.max_depth {
        return work;
    }
    let original = work.deep_clone();
    let mut strategies: Vec<AddStrategy> = Vec::new();
    strategies.push(AddStrategy::AsChild);
    strategies.push(AddStrategy::SeparateParent);
    strategies.push(AddStrategy::Intermediate);
    rng.shuffle(&mut strategies);
    let mut i: usize = 0;
    while i < strategies.len()
        invariant
            graph@ == g0,
            work@ == g0,
            g0.wf(),
            g0.len() + 1 < usize::MAX,
            clone_of(g0, original@),
            max_root_depth(g0, g0.roots()) < requirements.max_depth,
            factory@.available == old(factory)@.available,
            i <= strategies@.len(),
        decreases strategies@.len() - i,
    {
        let s = strategies[i];
        let copy = work.deep_clone();
        let ghost c = copy@;
        let ghost f1 = factory@;
        let new_graph = apply_add_strategy(s, copy, factory, rng);
        proof {
            assert(clone_of(g0, c));
        }
        if !new_graph.graphs_equal(&original) {
            proof {
                assert(add_outcome(s, c, f1, factory@, new_graph@));
            }
            return new_graph;
        }
        i = i + 1;
    }
    work
}

/// `h` is `g` with the subtree of the active node `x` replaced by a copy of
/// the subtree of a node `d` that was appended to the arena first.
pub open spec fn subtree_grown(g: GraphModel, x: NodeId, h: GraphModel) -> bool {
    exists|mid: GraphModel, d: NodeId|
        {
            &&& mid.wf()
            &&& mid.order == g.order
            &&& mid.nodes.take(g.len() as int) == g.nodes
            &&& g.len() <= d.0 < mid.len()
            &&& #[trigger] mid.update_subtree_result(x, d, h)
        }
}

/// What [`tree_growth`] and [`local_growth_mutation`] may give: an empty
/// graph as it is; otherwise the subtree of an active node grown anew.
pub open spec fn growth_outcome(g: GraphModel, r: GraphModel) -> bool {
    &&& g.order.len() == 0 ==> r == g
    &&& g.order.len() > 0 ==> exists|x: NodeId| g.is_active(x) && #[trigger] subtree_grown(g, x, r)
}

/// Replaces the subtree of a node picked at random by a new subtree: a
/// single primary node when the node has no parents (or, for a node that is
/// not the first root, on a coin flip) and the factory has a name, else a
/// random graph no deeper than the node's distance to the primary level. An
/// empty graph is returned unchanged.
pub fn tree_growth(
    graph: LinkedGraph,
    requirements: &GraphRequirements,
    factory: &mut OptNodeFactory,
    graph_factory: &mut RandomGrowthGraphFactory,
    rng: &mut GeneticRng,
) -> (r: LinkedGraph)
    requires
        graph@.wf(),
        graph@.len() <= growth_limit(),
    ensures
        r@.wf(),
        final(factory)@.available == old(factory)@.available,
        growth_outcome(graph@, r@),
{
    let mut work = graph;
    let ghost g0 = work@;
    let n = work.length();
    let mut indices = index_range(n);
    rng.shuffle(&mut indices);
    proof {
        lemma_permuted_range(indices@, n as nat);
    }
    if indices.len() == 0 {
        return work;
    }
    let nodes = work.nodes();
    let root = work.root_node();
    let node = nodes[indices[0]];
    proof {
        assert(g0.order[indices@[0] as int].0 < g0.len());
        assert(g0.is_active(node)) by {
            assert(g0.order[indices@[0] as int] == node);
        }
    }
    let d = distance_to_primary_level(&work, node);
    let max_depth: usize = if d < 0 { usize::MAX } else { d as usize };
    let is_root = match root {
        Some(r0) => r0 == node,
        None => false,
    };
    let parents_empty = work.parents_of(node).len() == 0;
    let is_primary = parents_empty || (!is_root && rng.gen_range(0, 2) == 1);
    let primary = if is_primary {
        factory.get_node(true)
    } else {
        None
    };
    let donor = match primary {
        Some(content) => {
            let no_parents: Vec<NodeId> = Vec::new();
            work.add_detached(content, no_parents.as_slice())
        },
        None => {
            let generated = graph_factory.generate(factory, requirements, Some(max_depth));
            match generated.root_node() {
                Some(r0) => {
                    proof {
                        generated@.order.lemma_filter_pred(generated@.root_pred(), 0);
                        assert(generated@.roots().contains(r0));
                        crate::dag::linked_graph::lemma_filter_contains_iff(generated@.order, generated@.root_pred(), r0);
                        let j = choose|j: int| 0 <= j < generated@.order.len() && generated@.order[j] == r0;
                        assert(generated@.order[j].0 < generated@.len());
                    }
                    let id = work.import_subtree(&generated, r0);
                    proof {
                        let v = choose|v: Seq<NodeId>|
                            generated@.is_ancestor_listing(r0, v) && #[trigger] g0.appended_copies(generated@, v, work@);
                        lemma_nodup_bounded_ids(v, generated@.len());
                    }
                    id
                },
                None => {
                    let content = match factory.get_node(false) {
                        Some(c) => c,
                        None => NodeContent::new(String::from_str("a")),
                    };
                    let no_parents: Vec<NodeId> = Vec::new();
                    work.add_detached(content, no_parents.as_slice())
                },
            }
        },
    };
    let ghost mid = work@;
    proof {
        assert(mid.order == g0.order);
        assert(mid.nodes.take(g0.len() as int) == g0.nodes);
        assert(g0.len() <= donor.0 < mid.len());
        assert(mid.len() <= 2 * growth_limit() + 1);
    }
    work.update_subtree(node, donor);
    proof {
        assert(subtree_grown(g0, node, work@));
    }
    work
}

/// A sequence of distinct listed ids is no longer than the arena.
proof fn lemma_nodup_bounded_ids(v: Seq<NodeId>, n: nat)
    requires
        v.no_duplicates(),
        forall|k: int| 0 <= k < v.len() ==> #[trigger] v[k].0 < n,
    ensures
        v.len() <= n,
{
    crate::dag::linked_graph::lemma_nodup_bounded(v, n);
}

/// One step of [`simple_mutation`]: the active or arena node `x` of `g` is
/// replaced by a new node under another name.
pub open spec fn rename_step(g: GraphModel, h: GraphModel) -> bool {
    exists|x: NodeId, name: Seq<char>|
        x.0 < g.len() && name != g.nodes[x.0 as int].name && #[trigger] replaced_by(g, x, name, h)
}

/// `h` comes from `g` by a chain of rename steps (possibly none).
pub open spec fn renamed_chain(g: GraphModel, h: GraphModel) -> bool {
    exists|steps: Seq<GraphModel>|
        {
            &&& steps.len() >= 1
            &&& steps[0] == g
            &&& steps.last() == h
            &&& forall|k: int| 0 <= k < steps.len() - 1 ==> #[trigger] rename_step(steps[k], steps[k + 1])
        }
}

/// A chain extends by one more step.
proof fn lemma_chain_step(g: GraphModel, m: GraphModel, h: GraphModel)
    requires
        renamed_chain(g, m),
        rename_step(m, h),
    ensures
        renamed_chain(g, h),
{
    let steps = choose|steps: Seq<GraphModel>|
        {
            &&& steps.len() >= 1
            &&& steps[0] == g
            &&& steps.last() == m
            &&& forall|k: int| 0 <= k < steps.len() - 1 ==> #[trigger] rename_step(steps[k], steps[k + 1])
        };
    let t = steps.push(h);
    assert forall|k: int| 0 <= k < t.len() - 1 implies #[trigger] rename_step(t[k], t[k + 1]) by {
        if k < steps.len() - 1 {
            assert(t[k] == steps[k] && t[k + 1] == steps[k + 1]);
        } else {
            assert(t[k] == m);
        }
    }
    assert(t[0] == g);
    assert(t.last() == h);
}

/// A graph is a chain of no steps from itself.
proof fn lemma_chain_refl(g: GraphModel)
    ensures
        renamed_chain(g, g),
{
    let steps = seq![g];
    assert(steps.last() == g);
}

/// Chains compose.
proof fn lemma_chain_trans(g: GraphModel, m: GraphModel, h: GraphModel)
    requires
        renamed_chain(g, m),
        renamed_chain(m, h),
    ensures
        renamed_chain(g, h),
{
    let s1 = choose|steps: Seq<GraphModel>|
        {
            &&& steps.len() >= 1
            &&& steps[0] == g
            &&& steps.last() == m
            &&& forall|k: int| 0 <= k < steps.len() - 1 ==> #[trigger] rename_step(steps[k], steps[k + 1])
        };
    let s2 = choose|steps: Seq<GraphModel>|
        {
            &&& steps.len() >= 1
            &&& steps[0] == m
            &&& steps.last() == h
            &&& forall|k: int| 0 <= k < steps.len() - 1 ==> #[trigger] rename_step(steps[k], steps[k + 1])
        };
    let t = s1 + s2.drop_first();
    assert forall|k: int| 0 <= k < t.len() - 1 implies #[trigger] rename_step(t[k], t[k + 1]) by {
        if k < s1.len() - 1 {
            assert(t[k] == s1[k] && t[k + 1] == s1[k + 1]);
        } else {
            let j = k - (s1.len() - 1);
            assert(t[k] == s2[j]) by {
                if k == s1.len() - 1 {
                    assert(t[k] == s1.last());
                } else {
                    assert(t[k] == s2.drop_first()[k - s1.len()]);
                }
            }
            assert(t[k + 1] == s2[j + 1]);
        }
    }
    assert(t.last() == h) by {
        if s2.len() == 1 {
            assert(t.last() == s1.last());
        } else {
            assert(t.last() == s2.drop_first().last());
        }
    }
}

/// Replacing a node keeps the arena size.
proof fn lemma_update_keeps_len(g: GraphModel, old: NodeId, new: NodeId, h: GraphModel)
    requires
        g.update_node_result(old, new, h),
        new.0 < g.nodes.len(),
    ensures
        h.nodes.len() == g.nodes.len(),
{
    let g3 = choose|g3: GraphModel| g.update_node_mid(old, new).add_node_result(new, g3) && #[trigger] g3.sort_result(h);
    assert(g.after_actualise(old, new).nodes.len() == g.nodes.len());
    assert(g.update_node_mid(old, new).nodes.len() == g.nodes.len());
}

/// The node `x` of `g` is replaced by a new node under a name from `names`
/// other than its own.
pub open spec fn named_step(g: GraphModel, x: NodeId, names: Seq<Seq<char>>, h: GraphModel) -> bool {
    x.0 < g.len() && exists|name: Seq<char>|
        names.contains(name) && name != g.nodes[x.0 as int].name && #[trigger] replaced_by(g, x, name, h)
}

/// The node replaced at step `k` is a parent of a node replaced at an earlier
/// step, as that node stood when it was replaced.
pub open spec fn led_by(steps: Seq<GraphModel>, xs: Seq<NodeId>, k: int) -> bool {
    exists|j: int| 0 <= j < k && #[trigger] steps[j].has_parent(xs[j], xs[k])
}

/// `steps` leads from `g` to `h` by replacing the nodes `xs` one by one,
/// each under a name from `names`: first `start`, then each time a parent of
/// a node replaced before.
pub open spec fn tree_chain(
    steps: Seq<GraphModel>,
    xs: Seq<NodeId>,
    g: GraphModel,
    h: GraphModel,
    start: NodeId,
    names: Seq<Seq<char>>,
) -> bool {
    &&& steps.len() == xs.len() + 1
    &&& steps[0] == g
    &&& steps.last() == h
    &&& forall|k: int| 0 <= k < xs.len() ==> #[trigger] named_step(steps[k], xs[k], names, steps[k + 1])
    &&& xs.len() > 0 ==> xs[0] == start
    &&& forall|k: int| 0 < k < xs.len() ==> #[trigger] led_by(steps, xs, k)
}

/// `h` comes from `g` by replacing `start` and then, level by level, some of
/// the parents of replaced nodes, under names from `names` (possibly no
/// replacement at all).
pub open spec fn rename_tree(g: GraphModel, start: NodeId, names: Seq<Seq<char>>, h: GraphModel) -> bool {
    exists|steps: Seq<GraphModel>, xs: Seq<NodeId>| #[trigger] tree_chain(steps, xs, g, h, start, names)
}

/// `h` is `g` with `start` replaced first, under the name the factory `f`
/// hands out next for it, and then some of the parents of replaced nodes.
pub open spec fn tree_from_exchange(g: GraphModel, f: FactoryModel, start: NodeId, h: GraphModel) -> bool {
    exists|steps: Seq<GraphModel>, xs: Seq<NodeId>|
        #[trigger] tree_chain(steps, xs, g, h, start, f.available) && xs.len() >= 1 && renamed_one(g, f, start, steps[1])
}

/// No replacement is a chain.
proof fn lemma_tree_refl(g: GraphModel, start: NodeId, names: Seq<Seq<char>>)
    ensures
        tree_chain(seq![g], Seq::empty(), g, g, start, names),
{
}

/// Following a chain from `start` by a chain from a parent `p` of `start`.
proof fn lemma_tree_concat(
    s1: Seq<GraphModel>,
    x1: Seq<NodeId>,
    s2: Seq<GraphModel>,
    x2: Seq<NodeId>,
    g: GraphModel,
    m: GraphModel,
    h: GraphModel,
    start: NodeId,
    p: NodeId,
    names: Seq<Seq<char>>,
)
    requires
        tree_chain(s1, x1, g, m, start, names),
        x1.len() >= 1,
        g.has_parent(start, p),
        tree_chain(s2, x2, m, h, p, names),
    ensures
        tree_chain(s1 + s2.drop_first(), x1 + x2, g, h, start, names),
{
    let st = s1 + s2.drop_first();
    let xs = x1 + x2;
    let n1 = x1.len() as int;
    assert forall|k: int| 0 <= k <= xs.len() implies st[k] == (if k <= n1 { s1[k] } else { s2[k - n1] }) by {
        if k > n1 {
            assert(st[k] == s2.drop_first()[k - s1.len()]);
        }
    }
    assert(s1[n1] == m);
    assert(s2[0] == m);
    assert forall|k: int| 0 <= k < xs.len() implies #[trigger] named_step(st[k], xs[k], names, st[k + 1]) by {
        if k < n1 {
            assert(named_step(s1[k], x1[k], names, s1[k + 1]));
            assert(xs[k] == x1[k]);
        } else {
            assert(named_step(s2[k - n1], x2[k - n1], names, s2[k - n1 + 1]));
            assert(xs[k] == x2[k - n1]);
            assert(st[k] == s2[k - n1]);
        }
    }
    assert forall|k: int| 0 < k < xs.len() implies #[trigger] led_by(st, xs, k) by {
        if k < n1 {
            assert(led_by(s1, x1, k));
            let j = choose|j: int| 0 <= j < k && #[trigger] s1[j].has_parent(x1[j], x1[k]);
            assert(st[j] == s1[j] && xs[j] == x1[j] && xs[k] == x1[k]);
            assert(st[j].has_parent(xs[j], xs[k]));
        } else if k == n1 {
            assert(xs[k] == x2[0] && x2[0] == p);
            assert(st[0] == g && xs[0] == start);
            assert(st[0].has_parent(xs[0], xs[k]));
        } else {
            assert(led_by(s2, x2, k - n1));
            let j = choose|j: int| 0 <= j < k - n1 && #[trigger] s2[j].has_parent(x2[j], x2[k - n1]);
            assert(st[j + n1] == s2[j] && xs[j + n1] == x2[j] && xs[k] == x2[k - n1]);
            assert(st[j + n1].has_parent(xs[j + n1], xs[k]));
        }
    }
    if x2.len() == 0 {
        assert(s2.len() == 1);
        assert(st =~= s1);
        assert(h == m);
    } else {
        assert(st.last() == s2.last());
    }
    assert(xs.len() > 0 ==> xs[0] == start);
}

/// A coin that shows heads with probability `num / den`, which is certain
/// when `num >= den`.
fn coin(rng: &mut GeneticRng, num: u32, den: u32) -> (r: bool)
    requires
        den > 0,
    ensures
        num >= den ==> r,
        num == 0 ==> !r,
{
    if num >= den {
        true
    } else {
        rng.gen_ratio(num, den)
    }
}

/// The number of unmarked entries of `v`.
pub open spec fn unmarked(v: Seq<bool>) -> int {
    v.len() - v.filter(|b: bool| b).len()
}

/// Replaces `node` on a coin flip by a new node under another name, and goes
/// on with its parents; nodes marked in `visited` are left alone.
fn replace_node_to_random_recursive(
    graph: &mut LinkedGraph,
    node: NodeId,
    prob_num: u32,
    prob_den: u32,
    factory: &mut OptNodeFactory,
    visited: &mut Vec<bool>,
    rng: &mut GeneticRng,
)
    requires
        old(graph)@.wf(),
        node.0 < old(graph)@.len(),
        prob_den > 0,
        old(visited)@.len() == old(graph)@.len(),
        old(graph)@.len() + unmarked(old(visited)@) < usize::MAX,
    ensures
        final(graph)@.wf(),
        final(visited)@.len() == final(graph)@.len(),
        final(graph)@.len() >= old(graph)@.len(),
        final(graph)@.len() + unmarked(final(visited)@) <= old(graph)@.len() + unmarked(old(visited)@),
        unmarked(final(visited)@) <= unmarked(old(visited)@),
        renamed_chain(old(graph)@, final(graph)@),
        final(factory)@.available == old(factory)@.available,
        rename_tree(old(graph)@, node, old(factory)@.available, final(graph)@),
        !old(visited)@[node.0 as int] && prob_num >= prob_den && old(graph)@.is_active(node) && replacement_names(
            old(graph)@,
            old(factory)@,
            node,
        ).len() > 0 ==> tree_from_exchange(old(graph)@, old(factory)@, node, final(graph)@),
    decreases unmarked(old(visited)@),
{
    proof {
        lemma_chain_refl(graph@);
        lemma_tree_refl(graph@, node, factory@.available);
        crate::dag::graph_utils::lemma_nodup_count_bound(visited@);
    }
    if visited[node.0] {
        return;
    }
    if !coin(rng, prob_num, prob_den) {
        return;
    }
    let ghost g0 = graph@;
    let ghost f0 = factory@;
    match factory.exchange_node(graph, node) {
        Some(content) => {
            let parents = graph.parents_of(node).clone();
            proof {
                crate::dag::linked_graph::lemma_dedup(Seq::<NodeId>::empty());
                assert(crate::dag::linked_graph::dedup(Seq::<NodeId>::empty()) =~= Seq::<NodeId>::empty());
                let names = alternatives(f0.available, Some(g0.nodes[node.0 as int].name));
                let k = (f0.counter % names.len()) as int;
                f0.available.lemma_filter_pred(|n: Seq<char>| n != g0.nodes[node.0 as int].name, k);
                assert(content.params@ =~= Seq::<(String, String)>::empty());
            }
            let no_parents: Vec<NodeId> = Vec::new();
            let new_id = graph.add_detached(content, no_parents.as_slice());
            let ghost mid = graph@;
            proof {
                assert(g0.with_detached(mid, content.name@, Seq::empty(), Seq::empty()));
            }
            graph.update_node(node, new_id);
            let ghost mut st: Seq<GraphModel> = seq![g0, graph@];
            let ghost mut xs: Seq<NodeId> = seq![node];
            proof {
                lemma_update_keeps_len(mid, node, new_id, graph@);
                assert(replaced_by(g0, node, content.name@, graph@));
                assert(rename_step(g0, graph@));
                lemma_chain_step(g0, g0, graph@);
                let names = alternatives(f0.available, Some(g0.nodes[node.0 as int].name));
                let kk = (f0.counter % names.len()) as int;
                assert(names[kk] == content.name@);
                assert(names.contains(content.name@));
                f0.available.lemma_filter_contains_rev(|n: Seq<char>| n != g0.nodes[node.0 as int].name, content.name@);
                assert(named_step(g0, node, f0.available, graph@));
                assert(tree_chain(st, xs, g0, graph@, node, f0.available));
            }
            let ghost st1 = graph@;
            let ghost v0 = visited@;
            visited.set(node.0, true);
            visited.push(true);
            proof {
                crate::dag::graph_utils::lemma_count_flip(v0, node.0 as int);
                assert(visited@ =~= v0.update(node.0 as int, true).push(true));
                v0.update(node.0 as int, true).lemma_filter_push(true, |b: bool| b);
                assert(parents@ == g0.parents(node));
            }
            let mut j: usize = 0;
            while j < parents.len()
                invariant
                    graph@.wf(),
                    visited@.len() == graph@.len(),
                    parents@ == g0.parents(node),
                    g0.wf(),
                    graph@.len() >= g0.len(),
                    node.0 < g0.len(),
                    prob_den > 0,
                    j <= parents@.len(),
                    graph@.len() + unmarked(visited@) <= g0.len() + unmarked(v0),
                    v0 == old(visited)@,
                    unmarked(visited@) < unmarked(v0),
                    g0.len() + unmarked(v0) < usize::MAX,
                    renamed_chain(g0, graph@),
                    factory@.available == f0.available,
                    tree_chain(st, xs, g0, graph@, node, f0.available),
                    xs.len() >= 1,
                    st[1] == st1,
                decreases parents@.len() - j,
            {
                let p = parents[j];
                proof {
                    assert(g0.nodes[node.0 as int].parents[j as int].0 < g0.len());
                }
                let ghost gb = graph@;
                replace_node_to_random_recursive(graph, p, prob_num, prob_den, factory, visited, rng);
                proof {
                    lemma_chain_trans(g0, gb, graph@);
                    let (s2, x2) = choose|s2: Seq<GraphModel>, x2: Seq<NodeId>| #[trigger] tree_chain(
                        s2,
                        x2,
                        gb,
                        graph@,
                        p,
                        f0.available,
                    );
                    assert(g0.has_parent(node, p)) by {
                        assert(g0.parents(node)[j as int] == p);
                    }
                    lemma_tree_concat(st, xs, s2, x2, g0, gb, graph@, node, p, f0.available);
                    st = st + s2.drop_first();
                    xs = xs + x2;
                }
                j = j + 1;
            }
        },
        None => {},
    }
}

/// What [`simple_mutation`] may give: the graph with a chain of nodes
/// renamed, or, for an empty graph, a single new node so renamed.
pub open spec fn simple_outcome(g: GraphModel, r: GraphModel) -> bool {
    renamed_chain(g, r) || exists|m: GraphModel|
        g.order.len() == 0 && g.with_detached(m, "a"@, Seq::empty(), Seq::empty()) && #[trigger] renamed_chain(m, r)
}

/// How many levels lie between `x` and the primary nodes below it, or `-1`
/// when its depth is not positive.
pub open spec fn primary_distance(g: GraphModel, x: NodeId) -> int {
    if nodes_depth(g, seq![x]) > 0 {
        nodes_depth(g, seq![x]) - 1
    } else {
        -1
    }
}

/// Replaces, on coin flips with probability `strength / (d + 1)` (where `d`
/// is the distance of a random root to the primary level, and 7/10 when
/// that root is missing or its distance is negative), a random root and
/// then its parents, level by level, by new nodes under other names from the
/// factory. An empty graph starts from a new node named `a`. A graph with a
/// single root whose flip is certain and for which the factory has another
/// name always has that root replaced.
pub fn simple_mutation(
    graph: LinkedGraph,
    factory: &mut OptNodeFactory,
    strength_num: u32,
    strength_den: u32,
    rng: &mut GeneticRng,
) -> (r: LinkedGraph)
    requires
        graph@.wf(),
        graph@.len() < i32::MAX,
        strength_den > 0,
    ensures
        r@.wf(),
        final(factory)@.available == old(factory)@.available,
        simple_outcome(graph@, r@),
        exists|m: GraphModel, start: NodeId|
            {
                ||| m == graph@ && graph@.is_active(start)
                ||| graph@.order.len() == 0 && graph@.with_detached(m, "a"@, Seq::empty(), Seq::empty()) && start == NodeId(
                    graph@.len() as usize,
                )
            } && #[trigger] rename_tree(m, start, old(factory)@.available, r@),
        graph@.roots().len() == 1 && primary_distance(graph@, graph@.roots()[0]) >= 0 && strength_num >= (primary_distance(
            graph@,
            graph@.roots()[0],
        ) + 1) * strength_den && replacement_names(graph@, old(factory)@, graph@.roots()[0]).len() > 0
            ==> tree_from_exchange(graph@, old(factory)@, graph@.roots()[0], r@),
{
    let mut work = graph;
    let ghost g0 = work@;
    let roots = work.root_nodes();
    let root_node = rng.random_choice(roots.as_slice());
    let (num, den): (u32, u32) = match root_node {
        Some(root) => {
            proof {
                let q = choose|q: int| 0 <= q < roots@.len() && cloned::<NodeId>(roots@[q], root);
                g0.order.lemma_filter_pred(g0.root_pred(), q);
                assert(g0.roots().contains(root));
                crate::dag::linked_graph::lemma_filter_contains_iff(g0.order, g0.root_pred(), root);
                let j = choose|j: int| 0 <= j < g0.order.len() && g0.order[j] == root;
                assert(g0.order[j].0 < g0.len());
            }
            let d = distance_to_primary_level(&work, root);
            if d < 0 {
                (7, 10)
            } else {
                let dd: u64 = d as u64 + 1;
                let sd: u64 = strength_den as u64;
                proof {
                    assert(dd * sd <= 0x8000_0000u64 * 0xffff_ffffu64) by (nonlinear_arith)
                        requires
                            dd <= 0x8000_0000u64,
                            sd <= 0xffff_ffffu64,
                    ;
                    assert(dd * sd > 0) by (nonlinear_arith)
                        requires
                            dd > 0,
                            sd > 0,
                    ;
                }
                let prod = dd * sd;
                if prod > u32::MAX as u64 {
                    (7, 10)
                } else {
                    (strength_num, prod as u32)
                }
            }
        },
        None => (7, 10),
    };
    proof {
        if root_node is Some {
            let root = root_node->0;
            let q = choose|q: int| 0 <= q < roots@.len() && cloned::<NodeId>(roots@[q], root);
            g0.order.lemma_filter_pred(g0.root_pred(), q);
            assert(g0.roots().contains(root));
            crate::dag::linked_graph::lemma_filter_contains_iff(g0.order, g0.root_pred(), root);
            let j = choose|j: int| 0 <= j < g0.order.len() && g0.order[j] == root;
            assert(g0.order[j].0 < g0.len());
        }
    }
    let start = match root_node {
        Some(root) => root,
        None => {
            let nodes = work.nodes();
            match rng.random_choice(nodes.as_slice()) {
                Some(x) => {
                    proof {
                        let q = choose|q: int| 0 <= q < nodes@.len() && cloned::<NodeId>(nodes@[q], x);
                        assert(g0.order[q].0 < g0.len());
                    }
                    x
                },
                None => {
                    proof {
                        reveal_strlit("a");
                    }
                    let no_parents: Vec<NodeId> = Vec::new();
                    let content = NodeContent::new(String::from_str("a"));
                    proof {
                        assert(content.params@ =~= Seq::<(String, String)>::empty());
                    }
                    let id = work.add_detached(content, no_parents.as_slice());
                    proof {
                        crate::dag::linked_graph::lemma_dedup(Seq::<NodeId>::empty());
                        assert(crate::dag::linked_graph::dedup(Seq::<NodeId>::empty()) =~= Seq::<NodeId>::empty());
                        assert(g0.with_detached(work@, "a"@, Seq::empty(), Seq::empty()));
                    }
                    id
                },
            }
        },
    };
    let ghost m = work@;
    let n = work.arena_len();
    let mut visited: Vec<bool> = Vec::new();
    let mut i: usize = 0;
    while i < n
        invariant
            n == work@.len(),
            i <= n,
            visited@.len() == i,
            forall|k: int| 0 <= k < i ==> !visited@[k],
        decreases n - i,
    {
        visited.push(false);
        i = i + 1;
    }
    proof {
        crate::dag::graph_utils::lemma_count_all_false(visited@);
        assert(start.0 < work@.len());
    }
    proof {
        if g0.roots().len() == 1 && root_node is Some {
            let q = choose|q: int| 0 <= q < roots@.len() && cloned::<NodeId>(roots@[q], root_node->0);
            assert(q == 0);
            assert(start == g0.roots()[0]);
            if primary_distance(g0, start) >= 0 && strength_num >= (primary_distance(g0, start) + 1) * strength_den {
                assert(num == strength_num && num >= den);
            }
        }
        assert(!visited@[start.0 as int]);
        if root_node is Some {
            assert(m == g0);
        }
    }
    replace_node_to_random_recursive(&mut work, start, num, den, factory, &mut visited, rng);
    proof {
        if m == g0 {
        } else {
            assert(renamed_chain(m, work@));
        }
        let (s2, x2) = choose|s2: Seq<GraphModel>, x2: Seq<NodeId>| #[trigger] tree_chain(
            s2,
            x2,
            m,
            work@,
            start,
            old(factory)@.available,
        );
        assert(rename_tree(m, start, old(factory)@.available, work@));
    }
    work
}

/// Leaves the graph as it is.
pub fn no_mutation(graph: LinkedGraph) -> (r: LinkedGraph)
    ensures
        r@ == graph@,
{
    graph
}

/// Grows a subtree in place of a node picked at random, as [`tree_growth`]
/// does.
pub fn local_growth_mutation(
    graph: LinkedGraph,
    requirements: &GraphRequirements,
    factory: &mut OptNodeFactory,
    graph_factory: &mut RandomGrowthGraphFactory,
    rng: &mut GeneticRng,
) -> (r: LinkedGraph)
    requires
        graph@.wf(),
        graph@.len() <= growth_limit(),
    ensures
        r@.wf(),
        final(factory)@.available == old(factory)@.available,
        growth_outcome(graph@, r@),
{
    tree_growth(graph, requirements, factory, graph_factory, rng)
}

/// On a coin flip, adds a node as [`single_add_mutation`] does, or grows a
/// subtree as [`tree_growth`] does.
pub fn growth_mutation(
    graph: LinkedGraph,
    requirements: &GraphRequirements,
    factory: &mut OptNodeFactory,
    graph_factory: &mut RandomGrowthGraphFactory,
    rng: &mut GeneticRng,
) -> (r: LinkedGraph)
    requires
        graph@.wf(),
        graph@.len() <= growth_limit(),
    ensures
        r@.wf(),
        final(factory)@.available == old(factory)@.available,
        single_add_outcome(graph@, old(factory)@, requirements.max_depth, r@) || growth_outcome(graph@, r@),
{
    if !rng.gen_ratio(1, 2) {
        single_add_mutation(graph, requirements, factory, rng)
    } else {
        tree_growth(graph, requirements, factory, graph_factory, rng)
    }
}

/// What the mutation of type `t` may give for `g`, with the factory at `f0`
/// before and `f1` after.
pub open spec fn mutation_outcome(
    t: MutationTypesEnum,
    g: GraphModel,
    f0: FactoryModel,
    f1: FactoryModel,
    requirements: GraphRequirements,
    r: GraphModel,
) -> bool {
    match t {
        MutationTypesEnum::Simple => simple_outcome(g, r),
        MutationTypesEnum::Growth => single_add_outcome(g, f0, requirements.max_depth, r) || growth_outcome(g, r),
        MutationTypesEnum::LocalGrowth => growth_outcome(g, r),
        MutationTypesEnum::TreeGrowth => growth_outcome(g, r),
        MutationTypesEnum::Reduce => reduce_full_outcome(g, f0, f1, requirements.min_arity, r),
        MutationTypesEnum::SingleAdd => single_add_outcome(g, f0, requirements.max_depth, r),
        MutationTypesEnum::SingleChange => single_change_outcome(g, f0, f1, r),
        MutationTypesEnum::SingleDrop => single_drop_outcome(g, r),
        MutationTypesEnum::SingleEdge => single_edge_outcome(g, requirements.max_depth, r),
        MutationTypesEnum::NoMutation => r == g,
    }
}

/// Applies the mutation `mutation_type` to `graph`.
pub fn apply_mutation<A: GraphAdvisor>(
    mutation_type: MutationTypesEnum,
    graph: LinkedGraph,
    requirements: &GraphRequirements,
    factory: &mut OptNodeFactory,
    graph_factory: &mut RandomGrowthGraphFactory,
    advisor: &A,
    max_num_of_operator_attempts: usize,
    strength_num: u32,
    strength_den: u32,
    rng: &mut GeneticRng,
) -> (r: LinkedGraph)
    requires
        graph@.wf(),
        graph@.len() <= growth_limit(),
        strength_den > 0,
    ensures
        r@.wf(),
        final(factory)@.available == old(factory)@.available,
        mutation_outcome(mutation_type, graph@, old(factory)@, final(factory)@, *requirements, r@),
{
    match mutation_type {
        MutationTypesEnum::NoMutation => no_mutation(graph),
        MutationTypesEnum::Simple => simple_mutation(graph, factory, strength_num, strength_den, rng),
        MutationTypesEnum::SingleAdd => single_add_mutation(graph, requirements, factory, rng),
        MutationTypesEnum::SingleChange => single_change_mutation(graph, factory, rng),
        MutationTypesEnum::SingleDrop => single_drop_mutation(graph, advisor, max_num_of_operator_attempts, rng),
        MutationTypesEnum::SingleEdge => single_edge_mutation(graph, requirements, max_num_of_operator_attempts, rng),
        MutationTypesEnum::Reduce => reduce_mutation(graph, requirements, factory, rng),
        MutationTypesEnum::TreeGrowth => tree_growth(graph, requirements, factory, graph_factory, rng),
        MutationTypesEnum::Growth => growth_mutation(graph, requirements, factory, graph_factory, rng),
        MutationTypesEnum::LocalGrowth => local_growth_mutation(graph, requirements, factory, graph_factory, rng),
    }
}

} // verus!
