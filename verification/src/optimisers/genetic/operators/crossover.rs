use vstd::prelude::*;
use crate::dag::graph_node::{chars_lt, descriptive_id, node_desc_id, str_lt};
use crate::dag::graph_utils::{distance_to_primary_level, node_depth, get_nodes_by_name, layer_seq, max_root_depth, nodes_depth, nodes_from_layer};
use crate::dag::linked_graph::{
    GraphModel,
    LinkedGraph,
    lemma_children_has_child,
    lemma_filter_contains_iff,
    same_structure,
};
use crate::dag::node::{NodeContent, NodeId};
use crate::optimisers::genetic::gp_operators::{equivalent_pairs, equivalent_subtree};
use crate::optimisers::genetic::rng::GeneticRng;
use crate::optimisers::genetic::operators::subgraph::{subgraph_crossover, subgraph_outcome};
use crate::dag::graph_node::root_ids;
use crate::dag::verification::{default_graph_verifier, passes_default_rules};

verus! {

/// The crossover operators.
#[derive(Clone, Copy, Debug, PartialEq, Eq, Structural, Hash)]
pub enum CrossoverTypesEnum {
    Subtree,
    OnePoint,
    /// No crossover.
    NoCrossover,
    Subgraph,
    ExchangeEdges,
    ExchangeParentsOne,
    ExchangeParentsBoth,
}

/// `(key, node)` put into the sorted sequence `t` after every pair whose key
/// does not come after its key.
pub open spec fn insert_pair(t: Seq<(Seq<char>, NodeId)>, x: (Seq<char>, NodeId)) -> Seq<(Seq<char>, NodeId)>
    decreases t.len(),
{
    if t.len() == 0 {
        seq![x]
    } else if chars_lt(x.0, t[0].0) {
        seq![x] + t
    } else {
        seq![t[0]] + insert_pair(t.drop_first(), x)
    }
}

/// The pairs of `s`, stably sorted by key.
pub open spec fn sort_pairs(s: Seq<(Seq<char>, NodeId)>) -> Seq<(Seq<char>, NodeId)>
    decreases s.len(),
{
    if s.len() == 0 {
        Seq::empty()
    } else {
        insert_pair(sort_pairs(s.drop_last()), s.last())
    }
}

/// The nodes of `s` stably sorted by descriptive id.
pub open spec fn sort_by_desc_id(g: GraphModel, s: Seq<NodeId>) -> Seq<NodeId> {
    sort_pairs(s.map_values(|x: NodeId| (node_desc_id(g, x), x))).map_values(|p: (Seq<char>, NodeId)| p.1)
}

/// `x` touches an edge: it has a parent, or an active node lists it as one.
pub open spec fn touches_edge(g: GraphModel, x: NodeId) -> bool {
    g.parents(x).len() > 0 || g.has_child(x)
}

/// The active nodes that touch an edge, sorted by descriptive id.
pub open spec fn nodes_from_edges(g: GraphModel) -> Seq<NodeId> {
    sort_by_desc_id(g, g.order.filter(|x: NodeId| touches_edge(g, x)))
}

/// `h` holds `g`: the same nodes first, with the same contents and parents,
/// and the active nodes of `g` first in its order.
pub open spec fn extends(g: GraphModel, h: GraphModel) -> bool {
    &&& h.wf()
    &&& h.nodes.len() >= g.nodes.len()
    &&& h.nodes.take(g.nodes.len() as int) == g.nodes
    &&& h.order.len() >= g.order.len()
    &&& h.order.take(g.order.len() as int) == g.order
}

/// `extends` is transitive.
proof fn lemma_extends_trans(a: GraphModel, b: GraphModel, c: GraphModel)
    requires
        extends(a, b),
        extends(b, c),
    ensures
        extends(a, c),
{
    assert(c.nodes.take(a.nodes.len() as int) =~= c.nodes.take(b.nodes.len() as int).take(a.nodes.len() as int));
    assert(c.order.take(a.order.len() as int) =~= c.order.take(b.order.len() as int).take(a.order.len() as int));
}

/// A graph extends itself.
proof fn lemma_extends_refl(a: GraphModel)
    requires
        a.wf(),
    ensures
        extends(a, a),
{
    assert(a.nodes.take(a.nodes.len() as int) =~= a.nodes);
    assert(a.order.take(a.order.len() as int) =~= a.order);
}

/// `(key, node)` put into the sorted vector `t`.
fn insert_pair_vec(t: &mut Vec<(String, NodeId)>, x: (String, NodeId))
    ensures
        final(t)@.map_values(|p: (String, NodeId)| (p.0@, p.1)) == insert_pair(
            old(t)@.map_values(|p: (String, NodeId)| (p.0@, p.1)),
            (x.0@, x.1),
        ),
{
    let ghost t0 = t@.map_values(|p: (String, NodeId)| (p.0@, p.1));
    let ghost xv = (x.0@, x.1);
    let mut i: usize = 0;
    let mut stop = false;
    proof {
        assert(t0.skip(0) =~= t0);
        assert(t0.take(0) + t0 =~= t0);
    }
    while i < t.len() && !stop
        invariant
            t0 == t@.map_values(|p: (String, NodeId)| (p.0@, p.1)),
            xv == (x.0@, x.1),
            t@ == old(t)@,
            i <= t@.len(),
            stop ==> i < t@.len() && chars_lt(xv.0, t0[i as int].0),
            insert_pair(t0, xv) == t0.take(i as int) + insert_pair(t0.skip(i as int), xv),
        decreases t@.len() - i, if stop { 0int } else { 1int },
    {
        if str_lt(&x.0, &t[i].0) {
            stop = true;
        } else {
            proof {
                let u = t0.skip(i as int);
                assert(u[0] == t0[i as int]);
                assert(u.drop_first() =~= t0.skip(i + 1));
                assert(t0.take(i + 1) =~= t0.take(i as int) + seq![u[0]]);
                assert(insert_pair(u, xv) == seq![u[0]] + insert_pair(t0.skip(i + 1), xv));
                assert(t0.take(i as int) + (seq![u[0]] + insert_pair(t0.skip(i + 1), xv)) =~= t0.take(i + 1) + insert_pair(
                    t0.skip(i + 1),
                    xv,
                ));
            }
            i = i + 1;
        }
    }
    let ghost before = t@;
    t.insert(i, x);
    proof {
        let u = t0.skip(i as int);
        if i < t0.len() {
            assert(insert_pair(u, xv) == seq![xv] + u);
        } else {
            assert(u =~= Seq::<(Seq<char>, NodeId)>::empty());
        }
        assert(t@.map_values(|p: (String, NodeId)| (p.0@, p.1)) =~= t0.take(i as int) + (seq![xv] + u));
    }
}

/// The active nodes that touch an edge, sorted by descriptive id.
pub fn sorted_nodes_from_edges(g: &LinkedGraph) -> (r: Vec<NodeId>)
    requires
        g@.wf(),
        g@.len() < usize::MAX,
    ensures
        r@ == nodes_from_edges(g@),
{
    let ghost pred = |x: NodeId| touches_edge(g@, x);
    let order = g.nodes();
    let mut pairs: Vec<(String, NodeId)> = Vec::new();
    let ghost keyed = |x: NodeId| (node_desc_id(g@, x), x);
    let mut i: usize = 0;
    while i < order.len()
        invariant
            g@.wf(),
            g@.len() < usize::MAX,
            order@ == g@.order,
            pred == (|x: NodeId| touches_edge(g@, x)),
            keyed == (|x: NodeId| (node_desc_id(g@, x), x)),
            i <= order@.len(),
            pairs@.map_values(|p: (String, NodeId)| (p.0@, p.1)) == sort_pairs(
                order@.take(i as int).filter(pred).map_values(keyed),
            ),
        decreases order@.len() - i,
    {
        let x = order[i];
        proof {
            assert(g@.order[i as int].0 < g@.len());
            lemma_children_has_child(g@, x);
            assert(order@.take(i + 1) =~= order@.take(i as int).push(x));
            order@.take(i as int).lemma_filter_push(x, pred);
        }
        let touches = g.parents_of(x).len() > 0 || g.node_children(x).len() > 0;
        if touches {
            let id = descriptive_id(g, x);
            let ghost f = order@.take(i as int).filter(pred);
            proof {
                assert(f.push(x).map_values(keyed) =~= f.map_values(keyed).push(keyed(x)));
                assert(f.push(x).map_values(keyed).drop_last() =~= f.map_values(keyed));
            }
            insert_pair_vec(&mut pairs, (id, x));
        }
        i = i + 1;
    }
    proof {
        assert(order@.take(order@.len() as int) =~= order@);
    }
    let mut r: Vec<NodeId> = Vec::new();
    let ghost sp = pairs@.map_values(|p: (String, NodeId)| (p.0@, p.1));
    let mut k: usize = 0;
    while k < pairs.len()
        invariant
            sp == pairs@.map_values(|p: (String, NodeId)| (p.0@, p.1)),
            k <= pairs@.len(),
            r@ == sp.take(k as int).map_values(|p: (Seq<char>, NodeId)| p.1),
        decreases pairs@.len() - k,
    {
        r.push(pairs[k].1);
        proof {
            assert(sp.take(k + 1) =~= sp.take(k as int).push(sp[k as int]));
            assert(r@ =~= sp.take(k + 1).map_values(|p: (Seq<char>, NodeId)| p.1));
        }
        k = k + 1;
    }
    proof {
        assert(sp.take(sp.len() as int) =~= sp);
        assert(g@.order.filter(pred).map_values(keyed) =~= g@.order.filter(|x: NodeId| touches_edge(g@, x)).map_values(
            |x: NodeId| (node_desc_id(g@, x), x),
        ));
    }
    r
}

/// The active nodes of `g` named `name`, in order.
pub open spec fn named_active(g: GraphModel, name: Seq<char>) -> Seq<NodeId> {
    g.order.filter(|x: NodeId| g.nodes[x.0 as int].name == name)
}

/// `r` is the first active node of `g` named `name`, and `h` is `g`, when
/// there is one; otherwise `h` is `g` with a new active node `r` appended,
/// named `name`, without parameters or parents.
pub open spec fn got_or_created(g: GraphModel, name: Seq<char>, h: GraphModel, r: NodeId) -> bool {
    if named_active(g, name).len() > 0 {
        h == g && r == named_active(g, name)[0]
    } else {
        &&& r == NodeId(g.len() as usize)
        &&& h.nodes.len() == g.len() + 1
        &&& h.nodes.take(g.len() as int) == g.nodes
        &&& h.nodes[g.len() as int].name == name
        &&& h.nodes[g.len() as int].params.len() == 0
        &&& h.nodes[g.len() as int].parents.len() == 0
        &&& h.order == g.order.push(r)
    }
}

/// The names of the nodes `nodes` of `src`, in order.
pub open spec fn names_of(src: GraphModel, nodes: Seq<NodeId>) -> Seq<Seq<char>> {
    nodes.map_values(|x: NodeId| src.nodes[x.0 as int].name)
}

/// `steps` are the graphs met while looking up `names` one after the other,
/// `r` the nodes found or created.
pub open spec fn lookup_steps(steps: Seq<GraphModel>, names: Seq<Seq<char>>, r: Seq<NodeId>) -> bool {
    &&& steps.len() == names.len() + 1
    &&& r.len() == names.len()
    &&& forall|i: int| 0 <= i < names.len() ==> #[trigger] got_or_created(steps[i], names[i], steps[i + 1], r[i])
}

/// Looking up `names` in `g` one after the other, each as
/// [`got_or_created`] says, gives `h` and the nodes `r`.
pub open spec fn looked_up(g: GraphModel, names: Seq<Seq<char>>, h: GraphModel, r: Seq<NodeId>) -> bool {
    exists|steps: Seq<GraphModel>| #[trigger] lookup_steps(steps, names, r) && steps[0] == g && steps.last() == h
}

/// The first active node named `name`, or, when there is none, a new active
/// node under that name.
pub fn get_or_create_node(g: &mut LinkedGraph, name: &String) -> (r: NodeId)
    requires
        old(g)@.wf(),
        old(g)@.len() < usize::MAX,
    ensures
        got_or_created(old(g)@, name@, final(g)@, r),
        extends(old(g)@, final(g)@),
        final(g)@.len() <= old(g)@.len() + 1,
        r.0 < final(g)@.len(),
        final(g)@.is_active(r),
        final(g)@.nodes[r.0 as int].name == name@,
        old(g)@.order.filter(|x: NodeId| old(g)@.nodes[x.0 as int].name == name@).len() > 0 ==> final(g)@ == old(g)@,
{
    let ghost g0 = g@;
    let found = get_nodes_by_name(g, name.as_str());
    if found.len() > 0 {
        let x = found[0];
        proof {
            lemma_extends_refl(g0);
            let pred = |x: NodeId| g0.nodes[x.0 as int].name == name@;
            g0.order.lemma_filter_pred(pred, 0);
            assert(g0.order.filter(pred).contains(x));
            lemma_filter_contains_iff(g0.order, pred, x);
            let j = choose|j: int| 0 <= j < g0.order.len() && g0.order[j] == x;
            assert(g0.order[j].0 < g0.len());
        }
        return x;
    }
    let content = NodeContent::new(name.clone());
    let no_parents: Vec<NodeId> = Vec::new();
    let id = g.add_detached(content, no_parents.as_slice());
    let ghost mid = g@;
    g.add_node(id);
    proof {
        assert(g@.nodes == mid.nodes);
        assert(g@.nodes.take(g0.len() as int) =~= g0.nodes);
        assert(!mid.is_active(id)) by {
            if mid.order.contains(id) {
                let j = choose|j: int| 0 <= j < mid.order.len() && mid.order[j] == id;
                assert(mid.order[j].0 < g0.len());
            }
        }
        assert(mid.parents(id) =~= Seq::<NodeId>::empty());
        if g@.order.len() > g0.order.len() + 1 {
            let k: int = g0.order.len() as int + 1;
            let j = choose|j: int| g0.order.len() <= j < k && mid.has_parent(#[trigger] g@.order[j], g@.order[k]);
            assert(g@.order[j] == id);
        }
        assert(g@.order =~= g0.order.push(id)) by {
            assert(g@.order.take(g0.order.len() as int) == g0.order);
        }
        assert(named_active(g0, name@).len() == 0);
    }
    id
}

/// For each node of `src` listed in `nodes`, the first active node of `g`
/// with its name, created in `g` when there is none.
pub fn find_nodes_in_other_graph(src: &LinkedGraph, nodes: &Vec<NodeId>, g: &mut LinkedGraph) -> (r: Vec<NodeId>)
    requires
        old(g)@.wf(),
        old(g)@.len() + nodes@.len() < usize::MAX,
        forall|k: int| 0 <= k < nodes@.len() ==> (#[trigger] nodes@[k]).0 < src@.len(),
    ensures
        looked_up(old(g)@, names_of(src@, nodes@), final(g)@, r@),
        extends(old(g)@, final(g)@),
        final(g)@.len() <= old(g)@.len() + nodes@.len(),
        r@.len() == nodes@.len(),
        forall|k: int|
            0 <= k < r@.len() ==> (#[trigger] r@[k]).0 < final(g)@.len() && final(g)@.is_active(r@[k])
                && final(g)@.nodes[r@[k].0 as int].name == src@.nodes[nodes@[k].0 as int].name,
{
    let ghost g0 = g@;
    let mut r: Vec<NodeId> = Vec::new();
    let ghost mut steps: Seq<GraphModel> = seq![g0];
    proof {
        lemma_extends_refl(g0);
    }
    let mut i: usize = 0;
    while i < nodes.len()
        invariant
            lookup_steps(steps, names_of(src@, nodes@.take(i as int)), r@),
            steps[0] == g0,
            steps.last() == g@,
            g0 == old(g)@,
            g0.wf(),
            g0.len() + nodes@.len() < usize::MAX,
            forall|k: int| 0 <= k < nodes@.len() ==> (#[trigger] nodes@[k]).0 < src@.len(),
            extends(g0, g@),
            g@.len() <= g0.len() + i,
            i <= nodes@.len(),
            r@.len() == i,
            forall|k: int|
                0 <= k < i ==> (#[trigger] r@[k]).0 < g@.len() && g@.is_active(r@[k]) && g@.nodes[r@[k].0 as int].name
                    == src@.nodes[nodes@[k].0 as int].name,
        decreases nodes@.len() - i,
    {
        let name = src.name(nodes[i]);
        let ghost before = g@;
        let y = get_or_create_node(g, name);
        proof {
            lemma_extends_trans(g0, before, g@);
            assert forall|k: int| 0 <= k < i implies (#[trigger] r@[k]).0 < g@.len() && g@.is_active(r@[k])
                && g@.nodes[r@[k].0 as int].name == src@.nodes[nodes@[k].0 as int].name by {
                assert(g@.nodes.take(before.len() as int)[r@[k].0 as int] == before.nodes[r@[k].0 as int]);
                assert(g@.order.take(before.order.len() as int) == before.order);
                let q = choose|q: int| 0 <= q < before.order.len() && before.order[q] == r@[k];
                assert(g@.order[q] == r@[k]);
            }
        }
        let ghost r0 = r@;
        let ghost s0 = steps;
        r.push(y);
        proof {
            steps = steps.push(g@);
            let n0 = names_of(src@, nodes@.take(i as int));
            let n1 = names_of(src@, nodes@.take(i + 1));
            assert(n1 =~= n0.push(name@));
            assert forall|t: int| 0 <= t < n1.len() implies #[trigger] got_or_created(steps[t], n1[t], steps[t + 1], r@[t]) by {
                if t < n0.len() {
                    assert(steps[t] == s0[t] && steps[t + 1] == s0[t + 1] && n1[t] == n0[t] && r@[t] == r0[t]);
                } else {
                    assert(steps[t] == before);
                }
            }
        }
        i = i + 1;
    }
    proof {
        assert(nodes@.take(nodes@.len() as int) =~= nodes@);
        assert(lookup_steps(steps, names_of(src@, nodes@), r@));
    }
    r
}

/// Every parent of `y` in `src` has a namesake among the parents of `x` in `h`.
pub open spec fn parents_named_like(h: GraphModel, x: NodeId, src: GraphModel, y: NodeId) -> bool {
    forall|j: int|
        #![trigger src.parents(y)[j]]
        0 <= j < src.parents(y).len() ==> exists|q: NodeId|
            #[trigger] h.has_parent(x, q) && h.nodes[q.0 as int].name == src.nodes[src.parents(y)[j].0 as int].name
}

/// Makes each node of `ps` a parent of `x`.
fn connect_all(g: &mut LinkedGraph, ps: &Vec<NodeId>, x: NodeId)
    requires
        old(g)@.wf(),
        x.0 < old(g)@.len(),
        forall|k: int| 0 <= k < ps@.len() ==> (#[trigger] ps@[k]).0 < old(g)@.len(),
    ensures
        final(g)@.wf(),
        final(g)@.order == old(g)@.order,
        final(g)@.len() == old(g)@.len(),
        forall|i: int| 0 <= i < old(g)@.len() && i != x.0 ==> final(g)@.nodes[i] == old(g)@.nodes[i],
        final(g)@.nodes[x.0 as int].name == old(g)@.nodes[x.0 as int].name,
        forall|q: NodeId| old(g)@.has_parent(x, q) ==> final(g)@.has_parent(x, q),
        forall|k: int| 0 <= k < ps@.len() ==> final(g)@.has_parent(x, #[trigger] ps@[k]),
        forall|q: NodeId| #[trigger] final(g)@.has_parent(x, q) ==> old(g)@.has_parent(x, q) || ps@.contains(q),
        final(g)@.nodes[x.0 as int].uid == old(g)@.nodes[x.0 as int].uid,
        final(g)@.nodes[x.0 as int].params == old(g)@.nodes[x.0 as int].params,
{
    let ghost g0 = g@;
    let mut k: usize = 0;
    while k < ps.len()
        invariant
            g@.wf(),
            g0 == old(g)@,
            x.0 < g0.len(),
            forall|t: int| 0 <= t < ps@.len() ==> (#[trigger] ps@[t]).0 < g0.len(),
            g@.order == g0.order,
            g@.len() == g0.len(),
            forall|i: int| 0 <= i < g0.len() && i != x.0 ==> g@.nodes[i] == g0.nodes[i],
            g@.nodes[x.0 as int].name == g0.nodes[x.0 as int].name,
            g@.nodes[x.0 as int].uid == g0.nodes[x.0 as int].uid,
            g@.nodes[x.0 as int].params == g0.nodes[x.0 as int].params,
            forall|q: NodeId| #[trigger] g@.has_parent(x, q) ==> g0.has_parent(x, q) || ps@.take(k as int).contains(q),
            forall|q: NodeId| g0.has_parent(x, q) ==> g@.has_parent(x, q),
            forall|t: int| 0 <= t < k ==> g@.has_parent(x, #[trigger] ps@[t]),
            k <= ps@.len(),
        decreases ps@.len() - k,
    {
        let ghost before = g@;
        g.connect_nodes(ps[k], x);
        proof {
            assert forall|q: NodeId| before.has_parent(x, q) implies g@.has_parent(x, q) by {
                if !before.has_parent(x, ps@[k as int]) {
                    let j = choose|j: int| 0 <= j < before.parents(x).len() && before.parents(x)[j] == q;
                    assert(g@.parents(x)[j] == q);
                }
            }
            if !before.has_parent(x, ps@[k as int]) {
                assert(g@.parents(x)[before.parents(x).len() as int] == ps@[k as int]);
            }
            assert forall|q: NodeId| #[trigger] g@.has_parent(x, q) implies g0.has_parent(x, q) || ps@.take(k + 1).contains(q) by {
                assert(ps@.take(k + 1)[k as int] == ps@[k as int]);
                if before.has_parent(x, q) {
                    if !g0.has_parent(x, q) {
                        let t = choose|t: int| 0 <= t < ps@.take(k as int).len() && ps@.take(k as int)[t] == q;
                        assert(ps@.take(k + 1)[t] == q);
                    }
                } else {
                    let t = choose|t: int| 0 <= t < g@.parents(x).len() && g@.parents(x)[t] == q;
                    if t < before.parents(x).len() {
                        assert(before.parents(x)[t] == q);
                    }
                }
            }
        }
        k = k + 1;
    }
    proof {
        assert(ps@.take(ps@.len() as int) =~= ps@);
    }
}

/// What [`exchange_parents_one_crossover`] may give: the second graph stays
/// as it is; without a node that touches an edge in it, so does the first;
/// otherwise a node of the first graph, named like a node `sel` of the second
/// that touches an edge, is active and has parents named like those of `sel`,
/// keeping the parents it had.
pub open spec fn parents_one_outcome(g1: GraphModel, g2: GraphModel, h1: GraphModel, h2: GraphModel) -> bool {
    &&& h2 == g2
    &&& nodes_from_edges(g2).len() == 0 ==> h1 == g1
    &&& nodes_from_edges(g2).len() > 0 ==> exists|sel: NodeId, x: NodeId|
        {
            &&& nodes_from_edges(g2).contains(sel)
            &&& h1.is_active(x)
            &&& h1.nodes[x.0 as int].name == g2.nodes[sel.0 as int].name
            &&& #[trigger] parents_named_like(h1, x, g2, sel)
            &&& x.0 < g1.len() ==> forall|q: NodeId| g1.has_parent(x, q) ==> h1.has_parent(x, q)
        }
}

/// Gives a node of the first graph, named like a node picked at random among
/// the nodes of the second graph that touch an edge (sorted by descriptive
/// id), parents named like the parents of the picked node; nodes are created
/// in the first graph where no node has the name. The second graph is left
/// as it is; so is the first when no node of the second touches an edge.
pub fn exchange_parents_one_crossover(graph_first: &mut LinkedGraph, graph_second: &mut LinkedGraph, rng: &mut GeneticRng)
    requires
        old(graph_first)@.wf(),
        old(graph_second)@.wf(),
        old(graph_second)@.len() < usize::MAX,
        old(graph_first)@.len() + old(graph_second)@.len() + 1 < usize::MAX,
    ensures
        final(graph_first)@.wf(),
        parents_one_outcome(old(graph_first)@, old(graph_second)@, final(graph_first)@, final(graph_second)@),
{
    let ghost g1 = graph_first@;
    let ghost g2 = graph_second@;
    let list = sorted_nodes_from_edges(graph_second);
    if list.len() == 0 {
        return;
    }
    let sel = match rng.random_choice(list.as_slice()) {
        Some(x) => x,
        None => {
            return;
        },
    };
    proof {
        let q = choose|q: int| 0 <= q < list@.len() && cloned::<NodeId>(list@[q], sel);
        assert(list@[q] == sel);
        assert(nodes_from_edges(g2).contains(sel));
        lemma_sorted_from_edges_valid(g2, sel);
    }
    let parents = graph_second.parents_of(sel).clone();
    let mut one: Vec<NodeId> = Vec::new();
    one.push(sel);
    let found = find_nodes_in_other_graph(graph_second, &one, graph_first);
    let x = found[0];
    let ghost mid = graph_first@;
    proof {
        assert(parents@ == g2.parents(sel));
        assert forall|k: int| 0 <= k < parents@.len() implies (#[trigger] parents@[k]).0 < g2.len() by {
            assert(g2.nodes[sel.0 as int].parents[k].0 < g2.len());
        }
        assert(one@[0] == sel);
    }
    if parents.len() > 0 {
        let unique = crate::dag::linked_graph::vec_dedup(&parents);
        proof {
            crate::dag::linked_graph::lemma_dedup(parents@);
            assert forall|k: int| 0 <= k < unique@.len() implies (#[trigger] unique@[k]).0 < g2.len() by {
                assert(parents@.contains(unique@[k]));
                let j = choose|j: int| 0 <= j < parents@.len() && parents@[j] == unique@[k];
            }
            crate::dag::linked_graph::lemma_nodup_bounded(unique@, g2.len());
        }
        let in_first = find_nodes_in_other_graph(graph_second, &unique, graph_first);
        let ghost mid2 = graph_first@;
        proof {
            lemma_extends_trans(g1, mid, mid2);
            assert(mid2.nodes.take(mid.len() as int)[x.0 as int] == mid.nodes[x.0 as int]);
            assert(mid2.is_active(x)) by {
                let q = choose|q: int| 0 <= q < mid.order.len() && mid.order[q] == x;
                assert(mid2.order.take(mid.order.len() as int)[q] == x);
            }
        }
        connect_all(graph_first, &in_first, x);
        proof {
            assert(graph_first@.is_active(x));
            assert forall|j: int|
                #![trigger g2.parents(sel)[j]]
                0 <= j < g2.parents(sel).len() implies exists|q: NodeId|
                #[trigger] graph_first@.has_parent(x, q) && graph_first@.nodes[q.0 as int].name == g2.nodes[g2.parents(
                    sel,
                )[j].0 as int].name by {
                assert(parents@[j] == g2.parents(sel)[j]);
                assert(parents@.contains(parents@[j]));
                crate::dag::linked_graph::lemma_dedup(parents@);
                assert(unique@.contains(parents@[j]));
                let i = choose|i: int| 0 <= i < unique@.len() && unique@[i] == parents@[j];
                let q = in_first@[i];
                assert(graph_first@.has_parent(x, q));
                assert(q.0 != x.0 ==> graph_first@.nodes[q.0 as int] == mid2.nodes[q.0 as int]);
                if q.0 == x.0 {
                    assert(q == x);
                }
            }
            if x.0 < g1.len() {
                assert forall|q: NodeId| g1.has_parent(x, q) implies graph_first@.has_parent(x, q) by {
                    assert(mid2.nodes.take(g1.len() as int)[x.0 as int] == g1.nodes[x.0 as int]);
                    assert(mid2.has_parent(x, q));
                }
            }
            assert(parents_named_like(graph_first@, x, g2, sel));
        }
    } else {
        proof {
            assert(parents_named_like(graph_first@, x, g2, sel));
            if x.0 < g1.len() {
                assert forall|q: NodeId| g1.has_parent(x, q) implies graph_first@.has_parent(x, q) by {
                    assert(mid.nodes.take(g1.len() as int)[x.0 as int] == g1.nodes[x.0 as int]);
                }
            }
        }
    }
}

/// A node that touches an edge is an active arena node.
proof fn lemma_sorted_from_edges_valid(g: GraphModel, x: NodeId)
    requires
        g.wf(),
        nodes_from_edges(g).contains(x),
    ensures
        x.0 < g.len(),
        g.is_active(x),
{
    let f = g.order.filter(|y: NodeId| touches_edge(g, y));
    lemma_sort_pairs_contains(f.map_values(|y: NodeId| (node_desc_id(g, y), y)), x);
    let k = choose|k: int| 0 <= k < f.len() && f[k] == x;
    assert(f.contains(x));
    lemma_filter_contains_iff(g.order, |y: NodeId| touches_edge(g, y), x);
    let j = choose|j: int| 0 <= j < g.order.len() && g.order[j] == x;
}

/// Sorting keeps the elements.
proof fn lemma_sort_pairs_contains(s: Seq<(Seq<char>, NodeId)>, x: NodeId)
    requires
        sort_pairs(s).map_values(|p: (Seq<char>, NodeId)| p.1).contains(x),
    ensures
        exists|k: int| 0 <= k < s.len() && s[k].1 == x,
{
    lemma_sort_pairs_elements(s);
    let t = sort_pairs(s);
    let m = t.map_values(|p: (Seq<char>, NodeId)| p.1);
    let k = choose|k: int| 0 <= k < m.len() && m[k] == x;
    assert(t.contains(t[k]));
    assert(s.contains(t[k]));
    let j = choose|j: int| 0 <= j < s.len() && s[j] == t[k];
    assert(s[j].1 == x);
}

/// Every pair of a sorted sequence is a pair of the input.
proof fn lemma_sort_pairs_elements(s: Seq<(Seq<char>, NodeId)>)
    ensures
        sort_pairs(s).len() == s.len(),
        forall|y: (Seq<char>, NodeId)| sort_pairs(s).contains(y) ==> s.contains(y),
    decreases s.len(),
{
    if s.len() > 0 {
        lemma_sort_pairs_elements(s.drop_last());
        lemma_insert_pair_elements(sort_pairs(s.drop_last()), s.last());
        assert forall|y: (Seq<char>, NodeId)| sort_pairs(s).contains(y) implies s.contains(y) by {
            if y != s.last() {
                assert(sort_pairs(s.drop_last()).contains(y));
                assert(s.drop_last().contains(y));
                let k = choose|k: int| 0 <= k < s.drop_last().len() && s.drop_last()[k] == y;
                assert(s[k] == y);
            } else {
                assert(s[s.len() - 1] == y);
            }
        }
    }
}

/// Inserting keeps the elements and adds one.
proof fn lemma_insert_pair_elements(t: Seq<(Seq<char>, NodeId)>, x: (Seq<char>, NodeId))
    ensures
        insert_pair(t, x).len() == t.len() + 1,
        forall|y: (Seq<char>, NodeId)| insert_pair(t, x).contains(y) ==> t.contains(y) || y == x,
    decreases t.len(),
{
    let r = insert_pair(t, x);
    if t.len() > 0 && !chars_lt(x.0, t[0].0) {
        let rest = insert_pair(t.drop_first(), x);
        lemma_insert_pair_elements(t.drop_first(), x);
        assert(r == seq![t[0]] + rest);
        assert forall|y: (Seq<char>, NodeId)| r.contains(y) implies t.contains(y) || y == x by {
            let k = choose|k: int| 0 <= k < r.len() && r[k] == y;
            if k > 0 {
                assert(rest[k - 1] == y);
                assert(rest.contains(y));
                if y != x {
                    assert(t.drop_first().contains(y));
                    let j = choose|j: int| 0 <= j < t.drop_first().len() && t.drop_first()[j] == y;
                    assert(t[j + 1] == t.drop_first()[j]);
                }
            } else {
                assert(t[0] == y);
            }
        }
    } else if t.len() > 0 {
        assert(r == seq![x] + t);
        assert forall|y: (Seq<char>, NodeId)| r.contains(y) implies t.contains(y) || y == x by {
            let k = choose|k: int| 0 <= k < r.len() && r[k] == y;
            if k > 0 {
                assert(t[k - 1] == y);
            }
        }
    } else {
        assert(r == seq![x]);
        assert forall|y: (Seq<char>, NodeId)| r.contains(y) implies t.contains(y) || y == x by {
            let k = choose|k: int| 0 <= k < r.len() && r[k] == y;
        }
    }
}

/// The predicate "is not an active node listed in `ps`".
pub open spec fn kept_pred(g: GraphModel, ps: Seq<NodeId>) -> spec_fn(NodeId) -> bool {
    |y: NodeId| !(ps.contains(y) && g.is_active(y))
}

/// The parents of `x` without the active nodes of `ps` when `x` is active;
/// the parents of `x` as they are otherwise.
pub open spec fn parents_without_active(g: GraphModel, ps: Seq<NodeId>, x: NodeId) -> Seq<NodeId> {
    if g.is_active(x) {
        g.parents(x).filter(kept_pred(g, ps))
    } else {
        g.parents(x)
    }
}

/// Removes each node of `ps` from the parents of `x`, where both are active.
fn disconnect_all(g: &mut LinkedGraph, ps: &Vec<NodeId>, x: NodeId)
    requires
        old(g)@.wf(),
        x.0 < old(g)@.len(),
        forall|k: int| 0 <= k < ps@.len() ==> (#[trigger] ps@[k]).0 < old(g)@.len(),
    ensures
        final(g)@.wf(),
        final(g)@ == old(g)@.with_parents(x, parents_without_active(old(g)@, ps@, x)),
        final(g)@.order == old(g)@.order,
        final(g)@.len() == old(g)@.len(),
        forall|i: int| 0 <= i < old(g)@.len() && i != x.0 ==> final(g)@.nodes[i] == old(g)@.nodes[i],
        final(g)@.nodes[x.0 as int].name == old(g)@.nodes[x.0 as int].name,
{
    let ghost g0 = g@;
    proof {
        let e = ps@.take(0);
        assert(e =~= Seq::<NodeId>::empty());
        crate::dag::linked_graph::lemma_filter_true(g0.parents(x));
        assert forall|y: NodeId| g0.parents(x).contains(y) implies (kept_pred(g0, e))(y) == (|y: NodeId| true)(y) by {}
        crate::dag::linked_graph::lemma_filter_ext(g0.parents(x), kept_pred(g0, e), |y: NodeId| true);
        assert(g0.with_parents(x, parents_without_active(g0, e, x)).nodes =~= g0.nodes);
    }
    let mut k: usize = 0;
    while k < ps.len()
        invariant
            g@.wf(),
            g0 == old(g)@,
            g0.wf(),
            x.0 < g0.len(),
            forall|t: int| 0 <= t < ps@.len() ==> (#[trigger] ps@[t]).0 < g0.len(),
            k <= ps@.len(),
            g@ == g0.with_parents(x, parents_without_active(g0, ps@.take(k as int), x)),
        decreases ps@.len() - k,
    {
        let ghost before = g@;
        let ghost tk = ps@.take(k as int);
        let ghost tk1 = ps@.take(k as int + 1);
        let p = ps[k];
        g.disconnect_nodes(p, x, false);
        proof {
            assert(tk1 =~= tk.push(p));
            assert forall|y: NodeId| tk1.contains(y) <==> (tk.contains(y) || y == p) by {
                if tk1.contains(y) {
                    let i = choose|i: int| 0 <= i < tk1.len() && tk1[i] == y;
                    if i < tk.len() {
                        assert(tk[i] == y);
                    }
                }
                if tk.contains(y) {
                    let i = choose|i: int| 0 <= i < tk.len() && tk[i] == y;
                    assert(tk1[i] == y);
                }
                if y == p {
                    assert(tk1[k as int] == y);
                }
            }
            assert(before.order == g0.order);
            if g0.is_active(x) {
                let cur = g0.parents(x).filter(kept_pred(g0, tk));
                assert(before.parents(x) == cur);
                if cur.contains(p) && g0.is_active(p) {
                    assert(before.has_parent(x, p));
                    assert forall|y: NodeId| #[trigger] (kept_pred(g0, tk1))(y) == ((kept_pred(g0, tk))(y) && (crate::dag::linked_graph::ne_pred(p))(y)) by {}
                    crate::dag::linked_graph::lemma_filter_filter(
                        g0.parents(x),
                        kept_pred(g0, tk),
                        crate::dag::linked_graph::ne_pred(p),
                        kept_pred(g0, tk1),
                    );
                    assert(g@ == before.with_parents(x, crate::dag::linked_graph::without(cur, p)));
                    assert(g@.nodes =~= g0.with_parents(x, parents_without_active(g0, tk1, x)).nodes);
                } else {
                    assert(!before.has_parent(x, p) || !before.is_active(p));
                    assert forall|y: NodeId| g0.parents(x).contains(y) implies (kept_pred(g0, tk1))(y) == (kept_pred(g0, tk))(y) by {
                        if y == p && g0.is_active(p) && (kept_pred(g0, tk))(y) {
                            crate::dag::linked_graph::lemma_filter_contains_iff(g0.parents(x), kept_pred(g0, tk), y);
                        }
                    }
                    crate::dag::linked_graph::lemma_filter_ext(g0.parents(x), kept_pred(g0, tk1), kept_pred(g0, tk));
                    assert(g@ == before);
                    assert(g@.nodes =~= g0.with_parents(x, parents_without_active(g0, tk1, x)).nodes);
                }
            } else {
                assert(!before.is_active(x));
                assert(g@ == before);
            }
        }
        k = k + 1;
    }
    proof {
        assert(ps@.take(ps@.len() as int) =~= ps@);
    }
}

/// Keeps what a name lookup found: the node stays active, named as it was.
proof fn lemma_extends_keeps(g: GraphModel, h: GraphModel, x: NodeId)
    requires
        extends(g, h),
        x.0 < g.len(),
        g.is_active(x),
    ensures
        h.is_active(x),
        h.nodes[x.0 as int] == g.nodes[x.0 as int],
{
    assert(h.nodes.take(g.len() as int)[x.0 as int] == g.nodes[x.0 as int]);
    let q = choose|q: int| 0 <= q < g.order.len() && g.order[q] == x;
    assert(h.order.take(g.order.len() as int)[q] == x);
}

/// `h` is `before` with only the parents of `x` changed.
pub open spec fn only_node_changed(before: GraphModel, h: GraphModel, x: NodeId) -> bool {
    &&& h.order == before.order
    &&& h.nodes.len() == before.nodes.len()
    &&& forall|i: int| 0 <= i < before.nodes.len() && i != x.0 ==> h.nodes[i] == before.nodes[i]
    &&& h.nodes[x.0 as int].name == before.nodes[x.0 as int].name
    &&& h.nodes[x.0 as int].uid == before.nodes[x.0 as int].uid
    &&& h.nodes[x.0 as int].params == before.nodes[x.0 as int].params
}

/// Each parent of `x` in `h` is named like a parent of `y` in `src`, or is an
/// inactive node that was a parent of `x` in `before`.
pub open spec fn parents_only(h: GraphModel, x: NodeId, before: GraphModel, src: GraphModel, y: NodeId) -> bool {
    forall|q: NodeId|
        #[trigger] h.has_parent(x, q) ==> (exists|j: int|
            0 <= j < src.parents(y).len() && h.nodes[q.0 as int].name == src.nodes[src.parents(y)[j].0 as int].name) || (
        before.has_parent(x, q) && !before.is_active(q))
}

/// What [`exchange_parents_both_crossover`] may give: without a node that
/// touches an edge in the second graph, both graphs stay as they are;
/// otherwise a node `sel1` of the first graph, named like a node `sel2` of the
/// second that touches an edge, takes parents named like those of `sel2`, and
/// `sel2` takes parents named like those `sel1` had in `g1m`. `g1m` is the
/// first graph after looking up in it (as [`got_or_created`] says, so that a
/// node is created only for a name that no active node has) the names of
/// the parents of `sel2` and then the name of `sel2`, which gives `sel1`;
/// `g2m` is the second graph after looking up in it the names of the parents
/// of `sel1`. Neither keeps any other active parent, and nothing else changes.
pub open spec fn parents_both_outcome(g1: GraphModel, g2: GraphModel, h1: GraphModel, h2: GraphModel) -> bool {
    &&& nodes_from_edges(g2).len() == 0 ==> h1 == g1 && h2 == g2
    &&& nodes_from_edges(g2).len() > 0 ==> exists|sel2: NodeId, sel1: NodeId, g1m: GraphModel, g2m: GraphModel|
        #![trigger parents_named_like(h1, sel1, g2, sel2), parents_named_like(h2, sel2, g1m, sel1), only_node_changed(g2m, h2, sel2)]
        {
            &&& nodes_from_edges(g2).contains(sel2)
            &&& extends(g1, g1m)
            &&& extends(g2, g2m)
            &&& h1.is_active(sel1)
            &&& h2.is_active(sel2)
            &&& h1.nodes[sel1.0 as int].name == g2.nodes[sel2.0 as int].name
            &&& parents_named_like(h1, sel1, g2, sel2)
            &&& parents_named_like(h2, sel2, g1m, sel1)
            &&& only_node_changed(g1m, h1, sel1)
            &&& only_node_changed(g2m, h2, sel2)
            &&& parents_only(h1, sel1, g1m, g2, sel2)
            &&& parents_only(h2, sel2, g2m, g1m, sel1)
            &&& exists|ga: GraphModel, r1: Seq<NodeId>|
                #[trigger] looked_up(g1, names_of(g2, crate::dag::linked_graph::dedup(g2.parents(sel2))), ga, r1) && got_or_created(
                    ga,
                    g2.nodes[sel2.0 as int].name,
                    g1m,
                    sel1,
                )
            &&& exists|r2: Seq<NodeId>| #[trigger] looked_up(g2, names_of(g1m, crate::dag::linked_graph::dedup(g1m.parents(sel1))), g2m, r2)
        }
}

/// Looking up one name is [`got_or_created`].
proof fn lemma_looked_up_one(g: GraphModel, name: Seq<char>, h: GraphModel, r: Seq<NodeId>)
    requires
        looked_up(g, seq![name], h, r),
    ensures
        r.len() == 1,
        got_or_created(g, name, h, r[0]),
{
    let steps = choose|steps: Seq<GraphModel>| #[trigger] lookup_steps(steps, seq![name], r) && steps[0] == g && steps.last() == h;
    assert(got_or_created(steps[0], seq![name][0], steps[1], r[0]));
}

/// Exchanges the parents of two nodes of the same name: a node picked at
/// random among the nodes of the second graph that touch an edge (sorted by
/// descriptive id), and the node of the first graph with its name (created
/// when there is none). Each loses its parents and takes nodes named like
/// the parents of the other, created in its graph where no node has the name.
/// Both graphs are left as they are when no node of the second touches an
/// edge.
pub fn exchange_parents_both_crossover(graph_first: &mut LinkedGraph, graph_second: &mut LinkedGraph, rng: &mut GeneticRng)
    requires
        old(graph_first)@.wf(),
        old(graph_second)@.wf(),
        old(graph_first)@.len() + old(graph_second)@.len() + 1 < usize::MAX / 2,
    ensures
        final(graph_first)@.wf(),
        final(graph_second)@.wf(),
        parents_both_outcome(old(graph_first)@, old(graph_second)@, final(graph_first)@, final(graph_second)@),
{
    let ghost g1 = graph_first@;
    let ghost g2 = graph_second@;
    let list = sorted_nodes_from_edges(graph_second);
    if list.len() == 0 {
        return;
    }
    let sel2 = match rng.random_choice(list.as_slice()) {
        Some(x) => x,
        None => {
            return;
        },
    };
    proof {
        let q = choose|q: int| 0 <= q < list@.len() && cloned::<NodeId>(list@[q], sel2);
        assert(list@[q] == sel2);
        assert(nodes_from_edges(g2).contains(sel2));
        lemma_sorted_from_edges_valid(g2, sel2);
    }
    let parents2 = graph_second.parents_of(sel2).clone();
    let unique2 = crate::dag::linked_graph::vec_dedup(&parents2);
    proof {
        assert(parents2@ == g2.parents(sel2));
        assert forall|k: int| 0 <= k < parents2@.len() implies (#[trigger] parents2@[k]).0 < g2.len() by {
            assert(g2.nodes[sel2.0 as int].parents[k].0 < g2.len());
        }
        crate::dag::linked_graph::lemma_dedup(parents2@);
        assert forall|k: int| 0 <= k < unique2@.len() implies (#[trigger] unique2@[k]).0 < g2.len() by {
            assert(parents2@.contains(unique2@[k]));
            let j = choose|j: int| 0 <= j < parents2@.len() && parents2@[j] == unique2@[k];
        }
        crate::dag::linked_graph::lemma_nodup_bounded(unique2@, g2.len());
    }
    let in_first = find_nodes_in_other_graph(graph_second, &unique2, graph_first);
    let ghost ga = graph_first@;
    let mut one: Vec<NodeId> = Vec::new();
    one.push(sel2);
    proof {
        assert(one@[0] == sel2);
    }
    let found = find_nodes_in_other_graph(graph_second, &one, graph_first);
    let sel1 = found[0];
    let ghost g1m = graph_first@;
    proof {
        lemma_extends_trans(g1, ga, g1m);
        assert forall|k: int| 0 <= k < in_first@.len() implies (#[trigger] in_first@[k]).0 < g1m.len()
            && g1m.nodes[in_first@[k].0 as int].name == g2.nodes[unique2@[k].0 as int].name by {
            assert(g1m.nodes.take(ga.len() as int)[in_first@[k].0 as int] == ga.nodes[in_first@[k].0 as int]);
        }
    }
    let parents1 = graph_first.parents_of(sel1).clone();
    let unique1 = crate::dag::linked_graph::vec_dedup(&parents1);
    proof {
        assert(parents1@ == g1m.parents(sel1));
        assert forall|k: int| 0 <= k < parents1@.len() implies (#[trigger] parents1@[k]).0 < g1m.len() by {
            assert(g1m.nodes[sel1.0 as int].parents[k].0 < g1m.len());
        }
        crate::dag::linked_graph::lemma_dedup(parents1@);
        assert forall|k: int| 0 <= k < unique1@.len() implies (#[trigger] unique1@[k]).0 < g1m.len() by {
            assert(parents1@.contains(unique1@[k]));
            let j = choose|j: int| 0 <= j < parents1@.len() && parents1@[j] == unique1@[k];
        }
        crate::dag::linked_graph::lemma_nodup_bounded(unique1@, g1m.len());
    }
    let in_second = find_nodes_in_other_graph(graph_first, &unique1, graph_second);
    let ghost g2m = graph_second@;
    proof {
        lemma_extends_keeps(g2, g2m, sel2);
    }
    disconnect_all(graph_first, &parents1, sel1);
    disconnect_all(graph_second, &parents2, sel2);
    let ghost g1d = graph_first@;
    let ghost g2d = graph_second@;
    proof {
        assert forall|k: int| 0 <= k < in_first@.len() implies (#[trigger] in_first@[k]).0 < g1d.len() by {}
        assert forall|k: int| 0 <= k < in_second@.len() implies (#[trigger] in_second@[k]).0 < g2d.len() by {}
    }
    connect_all(graph_first, &in_first, sel1);
    connect_all(graph_second, &in_second, sel2);
    proof {
        assert(graph_first@.is_active(sel1));
        assert(graph_second@.is_active(sel2));
        assert forall|j: int|
            #![trigger g2.parents(sel2)[j]]
            0 <= j < g2.parents(sel2).len() implies exists|q: NodeId|
            #[trigger] graph_first@.has_parent(sel1, q) && graph_first@.nodes[q.0 as int].name == g2.nodes[g2.parents(
                sel2,
            )[j].0 as int].name by {
            assert(parents2@.contains(parents2@[j]));
            assert(unique2@.contains(parents2@[j]));
            let i = choose|i: int| 0 <= i < unique2@.len() && unique2@[i] == parents2@[j];
            let q = in_first@[i];
            assert(graph_first@.has_parent(sel1, q));
            if q.0 != sel1.0 {
                assert(graph_first@.nodes[q.0 as int] == g1d.nodes[q.0 as int]);
                assert(g1d.nodes[q.0 as int] == g1m.nodes[q.0 as int]);
            } else {
                assert(q == sel1);
            }
        }
        assert forall|j: int|
            #![trigger g1m.parents(sel1)[j]]
            0 <= j < g1m.parents(sel1).len() implies exists|q: NodeId|
            #[trigger] graph_second@.has_parent(sel2, q) && graph_second@.nodes[q.0 as int].name == g1m.nodes[g1m.parents(
                sel1,
            )[j].0 as int].name by {
            assert(parents1@.contains(parents1@[j]));
            assert(unique1@.contains(parents1@[j]));
            let i = choose|i: int| 0 <= i < unique1@.len() && unique1@[i] == parents1@[j];
            let q = in_second@[i];
            assert(graph_second@.has_parent(sel2, q));
            if q.0 != sel2.0 {
                assert(graph_second@.nodes[q.0 as int] == g2d.nodes[q.0 as int]);
                assert(g2d.nodes[q.0 as int] == g2m.nodes[q.0 as int]);
            } else {
                assert(q == sel2);
            }
        }
        assert(parents_named_like(graph_first@, sel1, g2, sel2));
        assert(parents_named_like(graph_second@, sel2, g1m, sel1));
        assert(g1m.is_active(sel1));
        assert forall|q: NodeId| #[trigger] graph_first@.has_parent(sel1, q) implies (exists|j: int|
            0 <= j < g2.parents(sel2).len() && graph_first@.nodes[q.0 as int].name == g2.nodes[g2.parents(sel2)[j].0 as int].name)
            || (g1m.has_parent(sel1, q) && !g1m.is_active(q)) by {
            if in_first@.contains(q) {
                let i = choose|i: int| 0 <= i < in_first@.len() && in_first@[i] == q;
                assert(unique2@.contains(unique2@[i]));
                assert(parents2@.contains(unique2@[i]));
                let j = choose|j: int| 0 <= j < parents2@.len() && parents2@[j] == unique2@[i];
                if q.0 != sel1.0 {
                    assert(graph_first@.nodes[q.0 as int] == g1d.nodes[q.0 as int]);
                    assert(g1d.nodes[q.0 as int] == g1m.nodes[q.0 as int]);
                } else {
                    assert(q == sel1);
                }
                assert(g2.parents(sel2)[j] == unique2@[i]);
            } else {
                assert(g1d.has_parent(sel1, q));
                crate::dag::linked_graph::lemma_filter_contains_iff(g1m.parents(sel1), kept_pred(g1m, parents1@), q);
            }
        }
        assert(g2m.is_active(sel2));
        assert forall|q: NodeId| #[trigger] graph_second@.has_parent(sel2, q) implies (exists|j: int|
            0 <= j < g1m.parents(sel1).len() && graph_second@.nodes[q.0 as int].name == g1m.nodes[g1m.parents(sel1)[j].0 as int].name)
            || (g2m.has_parent(sel2, q) && !g2m.is_active(q)) by {
            if in_second@.contains(q) {
                let i = choose|i: int| 0 <= i < in_second@.len() && in_second@[i] == q;
                assert(unique1@.contains(unique1@[i]));
                assert(parents1@.contains(unique1@[i]));
                let j = choose|j: int| 0 <= j < parents1@.len() && parents1@[j] == unique1@[i];
                if q.0 != sel2.0 {
                    assert(graph_second@.nodes[q.0 as int] == g2d.nodes[q.0 as int]);
                    assert(g2d.nodes[q.0 as int] == g2m.nodes[q.0 as int]);
                } else {
                    assert(q == sel2);
                }
                assert(g1m.parents(sel1)[j] == unique1@[i]);
            } else {
                assert(g2d.has_parent(sel2, q));
                crate::dag::linked_graph::lemma_filter_contains_iff(g2m.parents(sel2), kept_pred(g2m, parents2@), q);
            }
        }
        assert(parents_only(graph_first@, sel1, g1m, g2, sel2));
        assert(parents_only(graph_second@, sel2, g2m, g1m, sel1));
        assert(only_node_changed(g1m, graph_first@, sel1));
        assert(only_node_changed(g2m, graph_second@, sel2));
        assert(names_of(g2, one@) =~= seq![g2.nodes[sel2.0 as int].name]);
        lemma_looked_up_one(ga, g2.nodes[sel2.0 as int].name, g1m, found@);
        assert(looked_up(g1, names_of(g2, crate::dag::linked_graph::dedup(g2.parents(sel2))), ga, in_first@));
        assert(looked_up(g2, names_of(g1m, crate::dag::linked_graph::dedup(g1m.parents(sel1))), g2m, in_second@));
    }
}

/// Makes `pairs[k].0` a parent of `pairs[k].1` for every `k`.
fn connect_pairs(g: &mut LinkedGraph, pairs: &Vec<(NodeId, NodeId)>)
    requires
        old(g)@.wf(),
        forall|k: int| 0 <= k < pairs@.len() ==> (#[trigger] pairs@[k]).0.0 < old(g)@.len() && pairs@[k].1.0 < old(g)@.len(),
    ensures
        final(g)@.wf(),
        final(g)@.order == old(g)@.order,
        final(g)@.len() == old(g)@.len(),
        forall|i: int| 0 <= i < old(g)@.len() ==> (#[trigger] final(g)@.nodes[i]).name == old(g)@.nodes[i].name,
        forall|k: int| 0 <= k < pairs@.len() ==> final(g)@.has_parent((#[trigger] pairs@[k]).1, pairs@[k].0),
        forall|c: NodeId, p: NodeId| c.0 < old(g)@.len() && #[trigger] old(g)@.has_parent(c, p) ==> final(g)@.has_parent(c, p),
        forall|c: NodeId, p: NodeId|
            c.0 < old(g)@.len() && #[trigger] final(g)@.has_parent(c, p) ==> old(g)@.has_parent(c, p) || pairs@.contains((p, c)),
{
    let ghost g0 = g@;
    let mut k: usize = 0;
    while k < pairs.len()
        invariant
            g@.wf(),
            g0 == old(g)@,
            forall|t: int| 0 <= t < pairs@.len() ==> (#[trigger] pairs@[t]).0.0 < g0.len() && pairs@[t].1.0 < g0.len(),
            g@.order == g0.order,
            g@.len() == g0.len(),
            forall|i: int| 0 <= i < g0.len() ==> (#[trigger] g@.nodes[i]).name == g0.nodes[i].name,
            forall|t: int| 0 <= t < k ==> g@.has_parent((#[trigger] pairs@[t]).1, pairs@[t].0),
            forall|c: NodeId, p: NodeId| c.0 < g0.len() && #[trigger] g0.has_parent(c, p) ==> g@.has_parent(c, p),
            forall|c: NodeId, p: NodeId|
                c.0 < g0.len() && #[trigger] g@.has_parent(c, p) ==> g0.has_parent(c, p) || pairs@.take(k as int).contains((p, c)),
            k <= pairs@.len(),
        decreases pairs@.len() - k,
    {
        let (p, c) = pairs[k];
        let ghost before = g@;
        g.connect_nodes(p, c);
        proof {
            assert forall|t: int| 0 <= t < k + 1 implies g@.has_parent((#[trigger] pairs@[t]).1, pairs@[t].0) by {
                if t < k {
                    let x = pairs@[t].1;
                    let y = pairs@[t].0;
                    if !before.has_parent(c, p) && x == c {
                        let j = choose|j: int| 0 <= j < before.parents(x).len() && before.parents(x)[j] == y;
                        assert(g@.parents(x)[j] == y);
                    }
                } else if !before.has_parent(c, p) {
                    assert(g@.parents(c)[before.parents(c).len() as int] == p);
                }
            }
            assert forall|x: NodeId, y: NodeId| x.0 < g0.len() && #[trigger] g0.has_parent(x, y) implies g@.has_parent(x, y) by {
                assert(before.has_parent(x, y));
                if !before.has_parent(c, p) && x == c {
                    let j = choose|j: int| 0 <= j < before.parents(x).len() && before.parents(x)[j] == y;
                    assert(g@.parents(x)[j] == y);
                }
            }
            assert forall|x: NodeId, y: NodeId| x.0 < g0.len() && #[trigger] g@.has_parent(x, y) implies g0.has_parent(x, y) || pairs@.take(k + 1).contains((y, x)) by {
                assert(pairs@.take(k + 1)[k as int] == (p, c));
                if before.has_parent(x, y) {
                    if !g0.has_parent(x, y) {
                        let t = choose|t: int| 0 <= t < pairs@.take(k as int).len() && pairs@.take(k as int)[t] == (y, x);
                        assert(pairs@.take(k + 1)[t] == (y, x));
                    }
                } else {
                    assert(!before.has_parent(c, p) && x == c);
                    let j = choose|j: int| 0 <= j < g@.parents(x).len() && g@.parents(x)[j] == y;
                    if j < before.parents(x).len() {
                        assert(before.parents(x)[j] == y);
                    }
                    assert(y == p);
                }
            }
        }
        k = k + 1;
    }
    proof {
        assert(pairs@.take(pairs@.len() as int) =~= pairs@);
    }
}

/// For each edge of `src` in `edges`, the edge of `g` between the first
/// active nodes with the same names, created in `g` where there are none.
fn find_edges_in_other_graph(src: &LinkedGraph, edges: &Vec<(NodeId, NodeId)>, g: &mut LinkedGraph) -> (r: Vec<
    (NodeId, NodeId),
>)
    requires
        old(g)@.wf(),
        old(g)@.len() + 2 * edges@.len() < usize::MAX,
        forall|k: int| 0 <= k < edges@.len() ==> (#[trigger] edges@[k]).0.0 < src@.len() && edges@[k].1.0 < src@.len(),
    ensures
        extends(old(g)@, final(g)@),
        final(g)@.len() <= old(g)@.len() + 2 * edges@.len(),
        r@.len() == edges@.len(),
        forall|k: int|
            0 <= k < r@.len() ==> {
                &&& (#[trigger] r@[k]).0.0 < final(g)@.len()
                &&& r@[k].1.0 < final(g)@.len()
                &&& final(g)@.nodes[r@[k].0.0 as int].name == src@.nodes[edges@[k].0.0 as int].name
                &&& final(g)@.nodes[r@[k].1.0 as int].name == src@.nodes[edges@[k].1.0 as int].name
            },
{
    let ghost g0 = g@;
    let mut r: Vec<(NodeId, NodeId)> = Vec::new();
    proof {
        lemma_extends_refl(g0);
    }
    let mut i: usize = 0;
    while i < edges.len()
        invariant
            g0 == old(g)@,
            g0.wf(),
            g0.len() + 2 * edges@.len() < usize::MAX,
            forall|k: int| 0 <= k < edges@.len() ==> (#[trigger] edges@[k]).0.0 < src@.len() && edges@[k].1.0 < src@.len(),
            extends(g0, g@),
            g@.len() <= g0.len() + 2 * i,
            i <= edges@.len(),
            r@.len() == i,
            forall|k: int|
                0 <= k < i ==> {
                    &&& (#[trigger] r@[k]).0.0 < g@.len()
                    &&& r@[k].1.0 < g@.len()
                    &&& g@.nodes[r@[k].0.0 as int].name == src@.nodes[edges@[k].0.0 as int].name
                    &&& g@.nodes[r@[k].1.0 as int].name == src@.nodes[edges@[k].1.0 as int].name
                },
        decreases edges@.len() - i,
    {
        let (p, c) = edges[i];
        let ghost b0 = g@;
        let p2 = get_or_create_node(g, src.name(p));
        let ghost b1 = g@;
        let c2 = get_or_create_node(g, src.name(c));
        let ghost b2 = g@;
        proof {
            lemma_extends_trans(b0, b1, b2);
            lemma_extends_trans(g0, b0, b2);
            assert(b2.nodes.take(b1.len() as int)[p2.0 as int] == b1.nodes[p2.0 as int]);
            assert forall|k: int| 0 <= k < i implies {
                &&& (#[trigger] r@[k]).0.0 < b2.len()
                &&& r@[k].1.0 < b2.len()
                &&& b2.nodes[r@[k].0.0 as int].name == src@.nodes[edges@[k].0.0 as int].name
                &&& b2.nodes[r@[k].1.0 as int].name == src@.nodes[edges@[k].1.0 as int].name
            } by {
                assert(b2.nodes.take(b0.len() as int)[r@[k].0.0 as int] == b0.nodes[r@[k].0.0 as int]);
                assert(b2.nodes.take(b0.len() as int)[r@[k].1.0 as int] == b0.nodes[r@[k].1.0 as int]);
            }
        }
        r.push((p2, c2));
        i = i + 1;
    }
    r
}

/// Removes `p` from the parents of `c` wherever it is listed.
fn drop_parent(g: &mut LinkedGraph, p: NodeId, c: NodeId)
    requires
        old(g)@.wf(),
        c.0 < old(g)@.len(),
    ensures
        final(g)@.wf(),
        final(g)@ == old(g)@.with_parents(c, crate::dag::linked_graph::without(old(g)@.parents(c), p)),
{
    let np = crate::dag::linked_graph::vec_without(g.parents_of(c), p);
    proof {
        assert forall|j: int| 0 <= j < np@.len() implies (#[trigger] np@[j]).0 < g@.len() by {
            let y = np@[j];
            assert(np@.contains(y));
            crate::dag::linked_graph::lemma_without_contains(g@.parents(c), p, y);
            let t = choose|t: int| 0 <= t < g@.parents(c).len() && g@.parents(c)[t] == y;
            assert(g@.nodes[c.0 as int].parents[t].0 < g@.len());
        }
    }
    g.set_parents(c, np);
}

/// `s` is made of elements of `es` taken at distinct positions.
pub open spec fn picked_from(s: Seq<(NodeId, NodeId)>, es: Seq<(NodeId, NodeId)>) -> bool {
    exists|idx: Seq<usize>|
        {
            &&& idx.len() == s.len()
            &&& idx.no_duplicates()
            &&& forall|k: int| 0 <= k < idx.len() ==> #[trigger] idx[k] < es.len() && s[k] == es[idx[k] as int]
        }
}

/// The elements of `es` at the positions `idx`.
fn pick(es: &Vec<(NodeId, NodeId)>, idx: &Vec<usize>) -> (r: Vec<(NodeId, NodeId)>)
    requires
        idx@.no_duplicates(),
        forall|k: int| 0 <= k < idx@.len() ==> #[trigger] idx@[k] < es@.len(),
    ensures
        r@.len() == idx@.len(),
        forall|k: int| 0 <= k < r@.len() ==> #[trigger] r@[k] == es@[idx@[k] as int],
        picked_from(r@, es@),
{
    let mut r: Vec<(NodeId, NodeId)> = Vec::new();
    let mut k: usize = 0;
    while k < idx.len()
        invariant
            forall|t: int| 0 <= t < idx@.len() ==> #[trigger] idx@[t] < es@.len(),
            k <= idx@.len(),
            r@.len() == k,
            forall|t: int| 0 <= t < k ==> #[trigger] r@[t] == es@[idx@[t] as int],
        decreases idx@.len() - k,
    {
        r.push(es[idx[k]]);
        k = k + 1;
    }
    proof {
        assert forall|t: int| 0 <= t < idx@.len() implies #[trigger] idx@[t] < es@.len() && r@[t] == es@[idx@[t] as int] by {}
    }
    r
}

/// Every edge of `es` in `src` has a namesake edge in `h`: an edge between
/// nodes named like its ends.
pub open spec fn edges_named_like(h: GraphModel, src: GraphModel, es: Seq<(NodeId, NodeId)>) -> bool {
    forall|k: int| 0 <= k < es.len() ==> #[trigger] has_named_edge(h, src, es[k])
}

/// `h` has an edge between nodes named like the ends of the edge `e` of `src`.
pub open spec fn has_named_edge(h: GraphModel, src: GraphModel, e: (NodeId, NodeId)) -> bool {
    exists|p: NodeId, c: NodeId|
        #[trigger] h.has_parent(c, p) && h.nodes[p.0 as int].name == src.nodes[e.0.0 as int].name && h.nodes[c.0 as int].name
            == src.nodes[e.1.0 as int].name
}

/// `h` links `p` to `c` with names like those of the ends of an edge of `s`
/// in `src`.
pub open spec fn named_like_edge(h: GraphModel, p: NodeId, c: NodeId, src: GraphModel, s: Seq<(NodeId, NodeId)>) -> bool {
    exists|t: int|
        0 <= t < s.len() && h.nodes[p.0 as int].name == src.nodes[(#[trigger] s[t]).0.0 as int].name && h.nodes[c.0 as int].name
            == src.nodes[s[t].1.0 as int].name
}

/// Among the nodes of `g`, `h` keeps every link of `g` but those of `out`,
/// and any other link it has joins nodes named like the ends of an edge of
/// `incoming` in `src`.
pub open spec fn links_exchanged(
    g: GraphModel,
    h: GraphModel,
    out: Seq<(NodeId, NodeId)>,
    src: GraphModel,
    incoming: Seq<(NodeId, NodeId)>,
) -> bool {
    &&& forall|c: NodeId, p: NodeId|
        c.0 < g.len() && #[trigger] h.has_parent(c, p) ==> (g.has_parent(c, p) && !out.contains((p, c))) || named_like_edge(
            h,
            p,
            c,
            src,
            incoming,
        )
    &&& forall|c: NodeId, p: NodeId| c.0 < g.len() && #[trigger] g.has_parent(c, p) && !out.contains((p, c)) ==> h.has_parent(c, p)
}

/// What [`exchange_edges_crossover`] may give: when either graph has no
/// edge, both stay as they are; otherwise each graph takes edges named like
/// half (rounded up) of the smaller edge count picked from the other's edges,
/// and loses its own picked edges unless one named like it comes back; no
/// other link changes.
pub open spec fn edges_outcome(g1: GraphModel, g2: GraphModel, h1: GraphModel, h2: GraphModel) -> bool {
    &&& g1.edges().len() == 0 || g2.edges().len() == 0 ==> h1 == g1 && h2 == g2
    &&& g1.edges().len() > 0 && g2.edges().len() > 0 ==> exists|s1: Seq<(NodeId, NodeId)>, s2: Seq<(NodeId, NodeId)>|
        #![trigger picked_from(s1, g1.edges()), picked_from(s2, g2.edges())]
        {
            let m = if g1.edges().len() < g2.edges().len() {
                g1.edges().len()
            } else {
                g2.edges().len()
            };
            &&& picked_from(s1, g1.edges())
            &&& picked_from(s2, g2.edges())
            &&& s1.len() == (m + 1) / 2
            &&& s2.len() == (m + 1) / 2
            &&& edges_named_like(h1, g2, s2)
            &&& edges_named_like(h2, g1, s1)
            &&& links_exchanged(g1, h1, s1, g2, s2)
            &&& links_exchanged(g2, h2, s2, g1, s1)
        }
}

/// Exchanges edges between the graphs: half (rounded up) of the smaller edge
/// count is sampled from each graph and removed there, and each graph takes
/// edges between nodes named like the ends of the edges sampled from the
/// other, creating nodes where no node has the name. Both graphs are left as
/// they are when either has no edge.
pub fn exchange_edges_crossover(graph_first: &mut LinkedGraph, graph_second: &mut LinkedGraph, rng: &mut GeneticRng)
    requires
        old(graph_first)@.wf(),
        old(graph_second)@.wf(),
        old(graph_first)@.edges().len() + old(graph_second)@.edges().len() + old(graph_first)@.len() + old(
            graph_second,
        )@.len() < usize::MAX / 4,
    ensures
        final(graph_first)@.wf(),
        final(graph_second)@.wf(),
        edges_outcome(old(graph_first)@, old(graph_second)@, final(graph_first)@, final(graph_second)@),
{
    let ghost g1 = graph_first@;
    let ghost g2 = graph_second@;
    let edges_1 = graph_first.get_edges();
    let edges_2 = graph_second.get_edges();
    if edges_1.len() == 0 || edges_2.len() == 0 {
        return;
    }
    let m = if edges_1.len() < edges_2.len() { edges_1.len() } else { edges_2.len() };
    let count = (m + 1) / 2;
    let idx_1 = rng.sample_indices(edges_1.len(), count);
    let idx_2 = rng.sample_indices(edges_2.len(), count);
    let choice_1 = pick(&edges_1, &idx_1);
    let choice_2 = pick(&edges_2, &idx_2);
    proof {
        lemma_edges_valid(g1);
        lemma_edges_valid(g2);
        assert forall|t: int| 0 <= t < choice_1@.len() implies (#[trigger] choice_1@[t]).0.0 < g1.len() && choice_1@[t].1.0 < g1.len() by {
            assert(choice_1@[t] == g1.edges()[idx_1@[t] as int]);
        }
        assert forall|t: int| 0 <= t < choice_2@.len() implies (#[trigger] choice_2@[t]).0.0 < g2.len() && choice_2@[t].1.0 < g2.len() by {
            assert(choice_2@[t] == g2.edges()[idx_2@[t] as int]);
        }
    }
    let mut k: usize = 0;
    while k < choice_1.len()
        invariant
            graph_first@.wf(),
            graph_first@.len() == g1.len(),
            graph_first@.order == g1.order,
            forall|i: int| 0 <= i < g1.len() ==> (#[trigger] graph_first@.nodes[i]).name == g1.nodes[i].name,
            forall|t: int| 0 <= t < choice_1@.len() ==> (#[trigger] choice_1@[t]).0.0 < g1.len() && choice_1@[t].1.0 < g1.len(),
            k <= choice_1@.len(),
            forall|x: NodeId, y: NodeId|
                x.0 < g1.len() ==> (#[trigger] graph_first@.has_parent(x, y) <==> g1.has_parent(x, y) && !choice_1@.take(
                    k as int,
                ).contains((y, x))),
        decreases choice_1@.len() - k,
    {
        let (p, c) = choice_1[k];
        let ghost before = graph_first@;
        drop_parent(graph_first, p, c);
        proof {
            lemma_drop_step(g1, before, graph_first@, choice_1@, k as int, p, c);
        }
        k = k + 1;
    }
    let mut k: usize = 0;
    while k < choice_2.len()
        invariant
            graph_second@.wf(),
            graph_second@.len() == g2.len(),
            graph_second@.order == g2.order,
            forall|i: int| 0 <= i < g2.len() ==> (#[trigger] graph_second@.nodes[i]).name == g2.nodes[i].name,
            forall|t: int| 0 <= t < choice_2@.len() ==> (#[trigger] choice_2@[t]).0.0 < g2.len() && choice_2@[t].1.0 < g2.len(),
            k <= choice_2@.len(),
            forall|x: NodeId, y: NodeId|
                x.0 < g2.len() ==> (#[trigger] graph_second@.has_parent(x, y) <==> g2.has_parent(x, y) && !choice_2@.take(
                    k as int,
                ).contains((y, x))),
        decreases choice_2@.len() - k,
    {
        let (p, c) = choice_2[k];
        let ghost before = graph_second@;
        drop_parent(graph_second, p, c);
        proof {
            lemma_drop_step(g2, before, graph_second@, choice_2@, k as int, p, c);
        }
        k = k + 1;
    }
    proof {
        assert(choice_1@.take(choice_1@.len() as int) =~= choice_1@);
        assert(choice_2@.take(choice_2@.len() as int) =~= choice_2@);
    }
    let ghost g1r = graph_first@;
    let ghost g2r = graph_second@;
    let new_edges_2 = find_edges_in_other_graph(graph_first, &choice_1, graph_second);
    let new_edges_1 = find_edges_in_other_graph(graph_second, &choice_2, graph_first);
    let ghost g1f = graph_first@;
    let ghost g2f = graph_second@;
    connect_pairs(graph_first, &new_edges_1);
    connect_pairs(graph_second, &new_edges_2);
    proof {
        assert forall|t: int| 0 <= t < choice_2@.len() implies #[trigger] has_named_edge(graph_first@, g2, choice_2@[t]) by {
            let (p, c) = new_edges_1@[t];
            assert(graph_first@.has_parent(new_edges_1@[t].1, new_edges_1@[t].0));
            assert(graph_first@.nodes[p.0 as int].name == g1f.nodes[p.0 as int].name);
            assert(graph_first@.nodes[c.0 as int].name == g1f.nodes[c.0 as int].name);
            assert(g2r.nodes[choice_2@[t].0.0 as int].name == g2.nodes[choice_2@[t].0.0 as int].name);
            assert(g2r.nodes[choice_2@[t].1.0 as int].name == g2.nodes[choice_2@[t].1.0 as int].name);
        }
        assert forall|t: int| 0 <= t < choice_1@.len() implies #[trigger] has_named_edge(graph_second@, g1, choice_1@[t]) by {
            let (p, c) = new_edges_2@[t];
            assert(graph_second@.has_parent(new_edges_2@[t].1, new_edges_2@[t].0));
            assert(graph_second@.nodes[p.0 as int].name == g2f.nodes[p.0 as int].name);
            assert(graph_second@.nodes[c.0 as int].name == g2f.nodes[c.0 as int].name);
            assert(g1f.nodes.take(g1r.len() as int)[choice_1@[t].0.0 as int] == g1r.nodes[choice_1@[t].0.0 as int]);
        }
        assert(edges_named_like(graph_first@, g2, choice_2@));
        assert(edges_named_like(graph_second@, g1, choice_1@));
        lemma_links_exchanged(g1, g1r, g1f, graph_first@, choice_1@, g2, g2r, choice_2@, new_edges_1@);
        lemma_links_exchanged(g2, g2r, g2f, graph_second@, choice_2@, g1, g1r, choice_1@, new_edges_2@);
    }
}

/// One more dropped edge keeps the account of the links of `g`.
proof fn lemma_drop_step(
    g: GraphModel,
    before: GraphModel,
    after: GraphModel,
    s: Seq<(NodeId, NodeId)>,
    k: int,
    p: NodeId,
    c: NodeId,
)
    requires
        0 <= k < s.len(),
        s[k] == (p, c),
        c.0 < g.len(),
        before.len() == g.len(),
        after == before.with_parents(c, crate::dag::linked_graph::without(before.parents(c), p)),
        forall|x: NodeId, y: NodeId|
            x.0 < g.len() ==> (#[trigger] before.has_parent(x, y) <==> g.has_parent(x, y) && !s.take(k).contains((y, x))),
    ensures
        forall|x: NodeId, y: NodeId|
            x.0 < g.len() ==> (#[trigger] after.has_parent(x, y) <==> g.has_parent(x, y) && !s.take(k + 1).contains((y, x))),
{
    assert forall|x: NodeId, y: NodeId| x.0 < g.len() implies (#[trigger] after.has_parent(x, y) <==> g.has_parent(x, y)
        && !s.take(k + 1).contains((y, x))) by {
        assert(before.has_parent(x, y) <==> g.has_parent(x, y) && !s.take(k).contains((y, x)));
        assert(s.take(k + 1)[k] == (p, c));
        assert(s.take(k + 1).contains((y, x)) <==> (s.take(k).contains((y, x)) || (y, x) == (p, c))) by {
            let s1 = s.take(k + 1);
            let s0 = s.take(k);
            if s1.contains((y, x)) {
                let t = choose|t: int| 0 <= t < s1.len() && #[trigger] s1[t] == (y, x);
                if t < k {
                    assert(s0[t] == (y, x));
                }
            }
            if s0.contains((y, x)) {
                let t = choose|t: int| 0 <= t < s0.len() && #[trigger] s0[t] == (y, x);
                assert(s1[t] == (y, x));
            }
        }
        if x == c {
            crate::dag::linked_graph::lemma_without_contains(before.parents(c), p, y);
            assert(after.parents(c) == crate::dag::linked_graph::without(before.parents(c), p));
        } else {
            assert(after.nodes[x.0 as int] == before.nodes[x.0 as int]);
        }
    }
}

/// The links of `g` after its picked edges were dropped (`gr`), names were
/// found (`gf`) and named edges were added (`h`).
proof fn lemma_links_exchanged(
    g: GraphModel,
    gr: GraphModel,
    gf: GraphModel,
    h: GraphModel,
    out: Seq<(NodeId, NodeId)>,
    src: GraphModel,
    srcr: GraphModel,
    incoming: Seq<(NodeId, NodeId)>,
    added: Seq<(NodeId, NodeId)>,
)
    requires
        gr.len() == g.len(),
        forall|x: NodeId, y: NodeId|
            x.0 < g.len() ==> (#[trigger] gr.has_parent(x, y) <==> g.has_parent(x, y) && !out.contains((y, x))),
        extends(gr, gf),
        h.len() == gf.len(),
        forall|i: int| 0 <= i < gf.len() ==> (#[trigger] h.nodes[i]).name == gf.nodes[i].name,
        forall|c: NodeId, p: NodeId| c.0 < gf.len() && #[trigger] gf.has_parent(c, p) ==> h.has_parent(c, p),
        forall|c: NodeId, p: NodeId| c.0 < gf.len() && #[trigger] h.has_parent(c, p) ==> gf.has_parent(c, p) || added.contains((p, c)),
        added.len() == incoming.len(),
        srcr.len() == src.len(),
        forall|i: int| 0 <= i < src.len() ==> (#[trigger] srcr.nodes[i]).name == src.nodes[i].name,
        forall|t: int| 0 <= t < incoming.len() ==> (#[trigger] incoming[t]).0.0 < src.len() && incoming[t].1.0 < src.len(),
        forall|k: int|
            0 <= k < added.len() ==> {
                &&& (#[trigger] added[k]).0.0 < gf.len()
                &&& added[k].1.0 < gf.len()
                &&& gf.nodes[added[k].0.0 as int].name == srcr.nodes[incoming[k].0.0 as int].name
                &&& gf.nodes[added[k].1.0 as int].name == srcr.nodes[incoming[k].1.0 as int].name
            },
    ensures
        links_exchanged(g, h, out, src, incoming),
{
    assert forall|c: NodeId, p: NodeId| c.0 < g.len() && #[trigger] h.has_parent(c, p) implies (g.has_parent(c, p)
        && !out.contains((p, c))) || named_like_edge(h, p, c, src, incoming) by {
        if gf.has_parent(c, p) {
            assert(gf.nodes.take(gr.len() as int)[c.0 as int] == gr.nodes[c.0 as int]);
            assert(gr.has_parent(c, p));
        } else {
            let k = choose|k: int| 0 <= k < added.len() && added[k] == (p, c);
            assert(added[k].0 == p && added[k].1 == c);
            assert(named_like_edge(h, p, c, src, incoming)) by {
                assert(h.nodes[p.0 as int].name == src.nodes[incoming[k].0.0 as int].name);
                assert(h.nodes[c.0 as int].name == src.nodes[incoming[k].1.0 as int].name);
            }
        }
    }
    assert forall|c: NodeId, p: NodeId| c.0 < g.len() && #[trigger] g.has_parent(c, p) && !out.contains((p, c)) implies h.has_parent(
        c,
        p,
    ) by {
        assert(gr.has_parent(c, p));
        assert(gf.nodes.take(gr.len() as int)[c.0 as int] == gr.nodes[c.0 as int]);
        assert(gf.has_parent(c, p));
    }
}

/// The edges of a well-formed graph join arena nodes.
proof fn lemma_edges_valid(g: GraphModel)
    requires
        g.wf(),
    ensures
        forall|k: int| 0 <= k < g.edges().len() ==> (#[trigger] g.edges()[k]).0.0 < g.len() && g.edges()[k].1.0 < g.len(),
{
    lemma_edges_upto_valid(g, g.order.len() as int);
}

/// The edges of the first `k` active nodes join arena nodes.
proof fn lemma_edges_upto_valid(g: GraphModel, k: int)
    requires
        g.wf(),
        k <= g.order.len(),
    ensures
        forall|t: int| 0 <= t < g.edges_upto(k).len() ==> (#[trigger] g.edges_upto(k)[t]).0.0 < g.len() && g.edges_upto(k)[t].1.0
            < g.len(),
    decreases k,
{
    if k > 0 {
        lemma_edges_upto_valid(g, k - 1);
        let c = g.order[k - 1];
        let prev = g.edges_upto(k - 1);
        let add = g.parents(c).map_values(|p: NodeId| (p, c));
        assert(g.edges_upto(k) == prev + add);
        assert forall|t: int| 0 <= t < g.edges_upto(k).len() implies (#[trigger] g.edges_upto(k)[t]).0.0 < g.len()
            && g.edges_upto(k)[t].1.0 < g.len() by {
            if t >= prev.len() {
                let j = t - prev.len();
                assert(g.edges_upto(k)[t] == add[j]);
                assert(g.nodes[c.0 as int].parents[j].0 < g.len());
            } else {
                assert(g.edges_upto(k)[t] == prev[t]);
            }
        }
    }
}


/// How far `x` lies above the primary nodes: one less than its depth, or
/// `-1` when its depth is not positive.
pub open spec fn primary_distance(g: GraphModel, x: NodeId) -> int {
    if nodes_depth(g, seq![x]) > 0 {
        nodes_depth(g, seq![x]) - 1
    } else {
        -1
    }
}

/// The depth a subtree reaches when placed at `layer`: the layer plus the
/// subtree's distance to the primary level plus one, computed in `usize`
/// with wrap-around (a distance of `-1` counts as `usize::MAX`).
pub open spec fn summary_depth(layer: usize, d: int) -> usize {
    let du: usize = if d < 0 {
        usize::MAX
    } else {
        d as usize
    };
    layer.wrapping_add(du).wrapping_add(1)
}

/// `h` is `g` with the subtree of `x` replaced by a copy of the subtree of
/// `y` in `src`.
pub open spec fn subtree_swapped_in(g: GraphModel, x: NodeId, src: GraphModel, y: NodeId, h: GraphModel) -> bool {
    exists|mid: GraphModel, v: Seq<NodeId>|
        #![trigger g.appended_copies(src, v, mid), mid.update_subtree_result(x, NodeId(g.len() as usize), h)]
        src.is_ancestor_listing(y, v) && g.appended_copies(src, v, mid) && mid.update_subtree_result(
            x,
            NodeId(g.len() as usize),
            h,
        )
}

/// What [`replace_subtrees`] does: the first graph takes the subtree of `y`
/// in place of `x` when the depth it would reach (from `layer_first`) is
/// within `max_depth` and not 0; then the second graph takes the subtree `x`
/// had in the first graph in place of `y`, on the same condition from
/// `layer_second` (with the distance of `x` measured in the changed first
/// graph).
pub open spec fn subtrees_replaced(
    g1: GraphModel,
    g2: GraphModel,
    x: NodeId,
    y: NodeId,
    layer_first: usize,
    layer_second: usize,
    max_depth: usize,
    h1: GraphModel,
    h2: GraphModel,
) -> bool {
    let s1 = summary_depth(layer_first, primary_distance(g2, y));
    let s2 = summary_depth(layer_second, primary_distance(h1, x));
    &&& if s1 <= max_depth && s1 != 0 {
        subtree_swapped_in(g1, x, g2, y, h1)
    } else {
        h1 == g1
    }
    &&& if s2 <= max_depth && s2 != 0 {
        subtree_swapped_in(g2, y, g1, x, h2)
    } else {
        h2 == g2
    }
}

/// Puts the subtree of `node_second` in place of `node_first` in the first
/// graph, and the former subtree of `node_first` in place of `node_second`
/// in the second, each only when the depth it reaches stays within
/// `max_depth`.
pub fn replace_subtrees(
    graph_first: &mut LinkedGraph,
    graph_second: &mut LinkedGraph,
    node_first: NodeId,
    node_second: NodeId,
    layer_first: usize,
    layer_second: usize,
    max_depth: usize,
)
    requires
        old(graph_first)@.wf(),
        old(graph_second)@.wf(),
        node_first.0 < old(graph_first)@.len(),
        node_second.0 < old(graph_second)@.len(),
        3 * (old(graph_first)@.len() + old(graph_second)@.len()) < i32::MAX,
        8 * (old(graph_first)@.len() + old(graph_second)@.len()) <= usize::MAX,
    ensures
        final(graph_first)@.wf(),
        final(graph_second)@.wf(),
        subtrees_replaced(
            old(graph_first)@,
            old(graph_second)@,
            node_first,
            node_second,
            layer_first,
            layer_second,
            max_depth,
            final(graph_first)@,
            final(graph_second)@,
        ),
{
    let ghost g1 = graph_first@;
    let ghost g2 = graph_second@;
    let snapshot = graph_first.duplicate();
    let d2 = distance_to_primary_level(graph_second, node_second);
    let du2: usize = if d2 < 0 { usize::MAX } else { d2 as usize };
    let s1 = layer_first.wrapping_add(du2).wrapping_add(1);
    if s1 <= max_depth && s1 != 0 {
        let id = graph_first.import_subtree(graph_second, node_second);
        let ghost mid = graph_first@;
        proof {
            let v = choose|v: Seq<NodeId>| g2.is_ancestor_listing(node_second, v) && #[trigger] g1.appended_copies(g2, v, mid);
            crate::dag::linked_graph::lemma_nodup_bounded(v, g2.len());
        }
        graph_first.update_subtree(node_first, id);
        proof {
            let v = choose|v: Seq<NodeId>| g2.is_ancestor_listing(node_second, v) && #[trigger] g1.appended_copies(g2, v, mid);
            assert(id == NodeId(g1.len() as usize));
            assert(mid.update_subtree_result(node_first, NodeId(g1.len() as usize), graph_first@));
            assert(g1.appended_copies(g2, v, mid));
            assert(subtree_swapped_in(g1, node_first, g2, node_second, graph_first@));
            lemma_subtree_result_len(mid, node_first, id, graph_first@);
            crate::dag::linked_graph::lemma_nodup_bounded(v, g2.len());
            assert(graph_first@.len() <= 2 * (g1.len() + g2.len()));
        }
    }
    let ghost h1 = graph_first@;
    let d1 = distance_to_primary_level(graph_first, node_first);
    let du1: usize = if d1 < 0 { usize::MAX } else { d1 as usize };
    let s2 = layer_second.wrapping_add(du1).wrapping_add(1);
    if s2 <= max_depth && s2 != 0 {
        let id = graph_second.import_subtree(&snapshot, node_first);
        let ghost mid = graph_second@;
        proof {
            let v = choose|v: Seq<NodeId>| g1.is_ancestor_listing(node_first, v) && #[trigger] g2.appended_copies(g1, v, mid);
            crate::dag::linked_graph::lemma_nodup_bounded(v, g1.len());
        }
        graph_second.update_subtree(node_second, id);
        proof {
            let v = choose|v: Seq<NodeId>| g1.is_ancestor_listing(node_first, v) && #[trigger] g2.appended_copies(g1, v, mid);
            assert(id == NodeId(g2.len() as usize));
            assert(mid.update_subtree_result(node_second, NodeId(g2.len() as usize), graph_second@));
            assert(g2.appended_copies(g1, v, mid));
            assert(subtree_swapped_in(g2, node_second, g1, node_first, graph_second@));
        }
    }
}

/// Replacing a subtree appends at most as many nodes as the arena held.
proof fn lemma_subtree_result_len(g: GraphModel, old: NodeId, new: NodeId, h: GraphModel)
    requires
        g.update_subtree_result(old, new, h),
    ensures
        h.len() <= 2 * g.len(),
{
    let (g1, v, g3, g4) = choose|g1: GraphModel, v: Seq<NodeId>, g3: GraphModel, g4: GraphModel|
        #![trigger g.appended_copies(g, v, g1), g3.add_node_result(NodeId(g.len() as usize), g4)]
        g.appended_copies(g, v, g1) && g.is_ancestor_listing(new, v) && g1.after_actualise(
            old,
            NodeId(g.len() as usize),
        ).delete_subtree_result(old, g3) && g3.add_node_result(NodeId(g.len() as usize), g4) && g4.sort_result(h);
    assert forall|k: int| 0 <= k < v.len() implies (#[trigger] v[k]).0 < g.len() by {
        assert(g.reaches(new, v[k]));
        let s = choose|s: Seq<NodeId>| #[trigger] g.is_path(s) && s[0] == new && s.last() == v[k];
        assert(s[s.len() - 1] == v[k]);
    }
    crate::dag::linked_graph::lemma_nodup_bounded(v, g.len());
    let ga = g1.after_actualise(old, NodeId(g.len() as usize));
    assert(ga.nodes.len() == g1.nodes.len());
    if !ga.cycle_above(old) {
        let w = choose|w: Seq<NodeId>|
            ga.is_hierarchy(old, w) && ga.parent_closed(w) && g3 == #[trigger] ga.after_remove_set(w);
        assert(ga.after_remove_set(w).nodes.len() == ga.nodes.len());
    }
}

/// The subtrees of a node `x` on a layer `l1` below the depth of the first
/// graph and a node `y` on a layer `l2` below the depth of the second (not the
/// root layer when `l1` is and the second is deeper than one) replaced as
/// [`replace_subtrees`] does.
pub open spec fn subtree_exchange(g1: GraphModel, g2: GraphModel, max_depth: usize, h1: GraphModel, h2: GraphModel) -> bool {
    exists|l1: usize, l2: usize, x: NodeId, y: NodeId|
        {
            &&& l1 < max_root_depth(g1, g1.roots())
            &&& l2 < max_root_depth(g2, g2.roots())
            &&& l1 == 0 && max_root_depth(g2, g2.roots()) > 1 ==> l2 >= 1
            &&& layer_seq(g1, g1.roots(), l1 as nat).contains(x)
            &&& layer_seq(g2, g2.roots(), l2 as nat).contains(y)
            &&& #[trigger] subtrees_replaced(g1, g2, x, y, l1, l2, max_depth, h1, h2)
        }
}

/// What [`subtree_crossover`] may give: both graphs as they are, or an
/// exchange of subtrees.
pub open spec fn subtree_outcome(g1: GraphModel, g2: GraphModel, max_depth: usize, h1: GraphModel, h2: GraphModel) -> bool {
    h1 == g1 && h2 == g2 || subtree_exchange(g1, g2, max_depth, h1, h2)
}

/// Exchanges subtrees between the graphs: a layer is picked at random below
/// the depth of each graph (not the root layer of the second when the first
/// picks its root layer and the second is deeper than one), a node is picked
/// at random in each layer, and the subtrees are replaced as
/// [`replace_subtrees`] does. The graphs are left as they are exactly when
/// either has depth 0.
pub fn subtree_crossover(graph_first: &mut LinkedGraph, graph_second: &mut LinkedGraph, max_depth: usize, rng: &mut GeneticRng)
    requires
        old(graph_first)@.wf(),
        old(graph_second)@.wf(),
        3 * (old(graph_first)@.len() + old(graph_second)@.len()) < i32::MAX,
        8 * (old(graph_first)@.len() + old(graph_second)@.len()) <= usize::MAX,
    ensures
        final(graph_first)@.wf(),
        final(graph_second)@.wf(),
        subtree_outcome(old(graph_first)@, old(graph_second)@, max_depth, final(graph_first)@, final(graph_second)@),
        max_root_depth(old(graph_first)@, old(graph_first)@.roots()) == 0 || max_root_depth(
            old(graph_second)@,
            old(graph_second)@.roots(),
        ) == 0 ==> final(graph_first)@ == old(graph_first)@ && final(graph_second)@ == old(graph_second)@,
        max_root_depth(old(graph_first)@, old(graph_first)@.roots()) > 0 && max_root_depth(
            old(graph_second)@,
            old(graph_second)@.roots(),
        ) > 0 ==> subtree_exchange(
            old(graph_first)@,
            old(graph_second)@,
            max_depth,
            final(graph_first)@,
            final(graph_second)@,
        ),
{
    let ghost g1 = graph_first@;
    let ghost g2 = graph_second@;
    let depth_1 = graph_first.rooted_depth();
    let depth_2 = graph_second.rooted_depth();
    if depth_1 == 0 || depth_2 == 0 {
        return;
    }
    let layer_1 = rng.gen_range(0, depth_1);
    let min_second = if layer_1 == 0 && depth_2 > 1 { 1 } else { 0 };
    let span = if depth_2 - min_second > 1 { depth_2 - min_second } else { 1 };
    let layer_2 = min_second + rng.gen_range(0, span);
    let nodes_1 = nodes_from_layer(graph_first, layer_1);
    let nodes_2 = nodes_from_layer(graph_second, layer_2);
    proof {
        crate::dag::graph_utils::lemma_max_root_depth_le(g1, g1.roots());
        crate::dag::graph_utils::lemma_max_root_depth_le(g2, g2.roots());
        crate::dag::graph_utils::lemma_layer_nonempty(g1, g1.roots(), layer_1 as nat, g1.len());
        crate::dag::graph_utils::lemma_layer_nonempty(g2, g2.roots(), layer_2 as nat, g2.len());
    }
    let x = match rng.random_choice(nodes_1.as_slice()) {
        Some(v) => v,
        None => {
            return;
        },
    };
    let y = match rng.random_choice(nodes_2.as_slice()) {
        Some(v) => v,
        None => {
            return;
        },
    };
    proof {
        let q1 = choose|q: int| 0 <= q < nodes_1@.len() && cloned::<NodeId>(nodes_1@[q], x);
        let q2 = choose|q: int| 0 <= q < nodes_2@.len() && cloned::<NodeId>(nodes_2@[q], y);
        assert(nodes_1@[q1] == x);
        assert(nodes_2@[q2] == y);
        crate::dag::graph_node::lemma_roots_valid(g1);
        crate::dag::graph_node::lemma_roots_valid(g2);
        lemma_layer_valid(g1, g1.roots(), layer_1 as nat);
        lemma_layer_valid(g2, g2.roots(), layer_2 as nat);
        assert(x.0 < g1.len());
        assert(y.0 < g2.len());
    }
    replace_subtrees(graph_first, graph_second, x, y, layer_1, layer_2, max_depth);
}

/// The nodes a layer search meets are arena nodes.
proof fn lemma_layer_valid(g: GraphModel, s: Seq<NodeId>, d: nat)
    requires
        g.wf(),
        forall|k: int| 0 <= k < s.len() ==> (#[trigger] s[k]).0 < g.len(),
    ensures
        forall|k: int| 0 <= k < layer_seq(g, s, d).len() ==> (#[trigger] layer_seq(g, s, d)[k]).0 < g.len(),
    decreases d, s.len(),
{
    if d > 0 && s.len() > 0 {
        lemma_layer_valid(g, s.drop_last(), d);
        let x = s.last();
        assert forall|k: int| 0 <= k < g.parents(x).len() implies (#[trigger] g.parents(x)[k]).0 < g.len() by {
            assert(g.nodes[x.0 as int].parents[k].0 < g.len());
        }
        lemma_layer_valid(g, g.parents(x), (d - 1) as nat);
        let a = layer_seq(g, s.drop_last(), d);
        let b = layer_seq(g, g.parents(x), (d - 1) as nat);
        assert(layer_seq(g, s, d) == a + b);
        assert forall|k: int| 0 <= k < (a + b).len() implies (#[trigger] (a + b)[k]).0 < g.len() by {
            if k < a.len() {
                assert((a + b)[k] == a[k]);
            } else {
                assert((a + b)[k] == b[k - a.len()]);
            }
        }
    }
}

/// The layer a node of depth `d` lies on in a graph of depth `depth`:
/// `depth - d` computed in `usize` with wrap-around (a depth of `-1` counts
/// as `usize::MAX`).
pub open spec fn layer_of(depth: usize, d: int) -> usize {
    let du: usize = if d < 0 {
        usize::MAX
    } else {
        d as usize
    };
    depth.wrapping_sub(du)
}

/// What [`one_point_crossover`] may give: without equivalent pairs (see
/// [`equivalent_pairs`]) whose first node has parents, both graphs as they
/// are; otherwise the subtrees of such a pair replaced as
/// [`replace_subtrees`] does, each node's layer being its graph's depth less
/// its own depth (see [`layer_of`]).
pub open spec fn one_point_outcome(g1: GraphModel, g2: GraphModel, max_depth: usize, h1: GraphModel, h2: GraphModel) -> bool {
    &&& equivalent_pairs(g1, g2, false).len() == 0 ==> h1 == g1 && h2 == g2
    &&& equivalent_pairs(g1, g2, false).len() > 0 ==> exists|k: int|
        #![trigger equivalent_pairs(g1, g2, false)[k]]
        0 <= k < equivalent_pairs(g1, g2, false).len() && {
            let p = equivalent_pairs(g1, g2, false)[k];
            subtrees_replaced(
                g1,
                g2,
                p.0,
                p.1,
                layer_of(max_root_depth(g1, g1.roots()) as usize, nodes_depth(g1, seq![p.0])),
                layer_of(max_root_depth(g2, g2.roots()) as usize, nodes_depth(g2, seq![p.1])),
                max_depth,
                h1,
                h2,
            )
        }
}

/// Exchanges structurally equivalent subtrees: a pair is picked at random
/// among the equivalent pairs of the graphs whose first node has parents, and
/// the subtrees are replaced as [`replace_subtrees`] does, each node's layer
/// being its graph's depth less its own depth. The graphs are left as they
/// are when there is no such pair.
pub fn one_point_crossover(graph_first: &mut LinkedGraph, graph_second: &mut LinkedGraph, max_depth: usize, rng: &mut GeneticRng)
    requires
        old(graph_first)@.wf(),
        old(graph_second)@.wf(),
        3 * (old(graph_first)@.len() + old(graph_second)@.len()) < i32::MAX,
        8 * (old(graph_first)@.len() + old(graph_second)@.len()) <= usize::MAX,
    ensures
        final(graph_first)@.wf(),
        final(graph_second)@.wf(),
        one_point_outcome(old(graph_first)@, old(graph_second)@, max_depth, final(graph_first)@, final(graph_second)@),
{
    let ghost g1 = graph_first@;
    let ghost g2 = graph_second@;
    let pairs = equivalent_subtree(graph_first, graph_second, false);
    if pairs.len() == 0 {
        return;
    }
    let k = rng.random_index(pairs.len());
    let (x, y) = pairs[k];
    proof {
        assert(pairs@[k as int].0.0 < g1.len() && pairs@[k as int].1.0 < g2.len());
    }
    let d1 = graph_first.rooted_depth();
    let d2 = graph_second.rooted_depth();
    let mut v1: Vec<NodeId> = Vec::new();
    v1.push(x);
    let mut v2: Vec<NodeId> = Vec::new();
    v2.push(y);
    proof {
        assert(v1@ =~= seq![x]);
        assert(v2@ =~= seq![y]);
    }
    let n1 = node_depth(graph_first, v1.as_slice());
    let n2 = node_depth(graph_second, v2.as_slice());
    let u1: usize = if n1 < 0 { usize::MAX } else { n1 as usize };
    let u2: usize = if n2 < 0 { usize::MAX } else { n2 as usize };
    let layer_first = d1.wrapping_sub(u1);
    let layer_second = d2.wrapping_sub(u2);
    replace_subtrees(graph_first, graph_second, x, y, layer_first, layer_second, max_depth);
    proof {
        let p = pairs@[k as int];
        assert(p == (x, y));
    }
}

/// The size limits under which every crossover operator can run on the two
/// graphs.
pub open spec fn crossover_fits(g1: GraphModel, g2: GraphModel) -> bool {
    &&& 3 * (g1.len() + g2.len()) < i32::MAX
    &&& 8 * (g1.len() + g2.len()) <= usize::MAX
    &&& g1.edges().len() + g2.edges().len() + g1.len() + g2.len() < usize::MAX / 4
}

/// Graphs with the same active nodes and parents have the same edges.
proof fn lemma_same_links_edges(g: GraphModel, h: GraphModel, k: int)
    requires
        h.order == g.order,
        h.nodes.len() == g.nodes.len(),
        forall|i: int| 0 <= i < g.nodes.len() ==> (#[trigger] h.nodes[i]).parents == g.nodes[i].parents,
        g.wf(),
        k <= g.order.len(),
    ensures
        h.edges_upto(k) == g.edges_upto(k),
    decreases k,
{
    if k > 0 {
        lemma_same_links_edges(g, h, k - 1);
        let c = g.order[k - 1];
        assert(c.0 < g.len());
        assert(h.parents(c) == g.parents(c));
    }
}

/// What the crossover operator of `t` may give (see each operator).
pub open spec fn crossover_outcome(
    t: CrossoverTypesEnum,
    g1: GraphModel,
    g2: GraphModel,
    max_depth: usize,
    h1: GraphModel,
    h2: GraphModel,
) -> bool {
    match t {
        CrossoverTypesEnum::Subtree => subtree_outcome(g1, g2, max_depth, h1, h2),
        CrossoverTypesEnum::OnePoint => one_point_outcome(g1, g2, max_depth, h1, h2),
        CrossoverTypesEnum::ExchangeEdges => edges_outcome(g1, g2, h1, h2),
        CrossoverTypesEnum::ExchangeParentsOne => parents_one_outcome(g1, g2, h1, h2),
        CrossoverTypesEnum::ExchangeParentsBoth => parents_both_outcome(g1, g2, h1, h2),
        CrossoverTypesEnum::Subgraph => subgraph_outcome(g1, g2, h1, h2),
        CrossoverTypesEnum::NoCrossover => h1 == g1 && h2 == g2,
    }
}

/// Applies the crossover operator of `crossover_type` to the two graphs; the
/// graphs stay as they are under `NoCrossover`.
pub fn apply_crossover(
    crossover_type: CrossoverTypesEnum,
    graph_first: &mut LinkedGraph,
    graph_second: &mut LinkedGraph,
    max_depth: usize,
    rng: &mut GeneticRng,
)
    requires
        old(graph_first)@.wf(),
        old(graph_second)@.wf(),
        crossover_fits(old(graph_first)@, old(graph_second)@),
    ensures
        final(graph_first)@.wf(),
        final(graph_second)@.wf(),
        crossover_outcome(crossover_type, old(graph_first)@, old(graph_second)@, max_depth, final(graph_first)@, final(graph_second)@),
{
    match crossover_type {
        CrossoverTypesEnum::Subtree => subtree_crossover(graph_first, graph_second, max_depth, rng),
        CrossoverTypesEnum::OnePoint => one_point_crossover(graph_first, graph_second, max_depth, rng),
        CrossoverTypesEnum::ExchangeEdges => exchange_edges_crossover(graph_first, graph_second, rng),
        CrossoverTypesEnum::ExchangeParentsOne => exchange_parents_one_crossover(graph_first, graph_second, rng),
        CrossoverTypesEnum::ExchangeParentsBoth => exchange_parents_both_crossover(graph_first, graph_second, rng),
        CrossoverTypesEnum::Subgraph => subgraph_crossover(graph_first, graph_second, rng),
        CrossoverTypesEnum::NoCrossover => {},
    }
}

/// `o` is a pair of offspring that an attempt of [`crossover_graphs`] can
/// give from copies of `g1` and `g2`, and that fails the default rules.
pub open spec fn failed_crossover(
    t: CrossoverTypesEnum,
    g1: GraphModel,
    g2: GraphModel,
    max_depth: usize,
    o: (GraphModel, GraphModel),
) -> bool {
    &&& !(passes_default_rules(o.0) && passes_default_rules(o.1))
    &&& exists|c1: GraphModel, c2: GraphModel|
        #![trigger same_structure(g1, c1), same_structure(g2, c2)]
        same_structure(g1, c1) && same_structure(g2, c2) && crossover_outcome(t, c1, c2, max_depth, o.0, o.1)
}

/// What [`crossover_graphs`] gives, over the models of its graphs: `None`
/// for graphs with the same root descriptive ids or for `NoCrossover`;
/// otherwise the offspring of an attempt that pass the default rules, or
/// `None` after as many failed attempts as allowed.
pub open spec fn crossover_graphs_result(
    t: CrossoverTypesEnum,
    g1: GraphModel,
    g2: GraphModel,
    max_depth: usize,
    attempts: usize,
    r: Option<(GraphModel, GraphModel)>,
) -> bool {
    &&& root_ids(g1) == root_ids(g2) || t == CrossoverTypesEnum::NoCrossover ==> r is None
    &&& r matches Some(p) ==> p.0.wf() && p.1.wf() && passes_default_rules(p.0) && passes_default_rules(p.1)
    &&& r matches Some(p) ==> exists|c1: GraphModel, c2: GraphModel|
        #![trigger same_structure(g1, c1), same_structure(g2, c2)]
        same_structure(g1, c1) && same_structure(g2, c2) && crossover_outcome(t, c1, c2, max_depth, p.0, p.1)
    &&& r is None && root_ids(g1) != root_ids(g2) && t != CrossoverTypesEnum::NoCrossover ==> exists|
        fails: Seq<(GraphModel, GraphModel)>,
    |
        fails.len() == attempts && forall|k: int|
            0 <= k < fails.len() ==> #[trigger] failed_crossover(t, g1, g2, max_depth, fails[k])
}

/// The models of a pair of offspring, when there is one.
pub open spec fn offspring_view(r: Option<(LinkedGraph, LinkedGraph)>) -> Option<(GraphModel, GraphModel)> {
    match r {
        Some(p) => Some((p.0@, p.1@)),
        None => None,
    }
}

/// Crossing two graphs with different root descriptive ids, by a type other
/// than `NoCrossover`, with at least one attempt allowed, gives offspring
/// whenever every pair of offspring that an attempt can give passes the
/// default rules; and offspring, when given, pass the rules.
pub proof fn law_crossover_gives_offspring(
    t: CrossoverTypesEnum,
    g1: GraphModel,
    g2: GraphModel,
    max_depth: usize,
    attempts: usize,
    r: Option<(GraphModel, GraphModel)>,
)
    requires
        crossover_graphs_result(t, g1, g2, max_depth, attempts, r),
        root_ids(g1) != root_ids(g2),
        t != CrossoverTypesEnum::NoCrossover,
        attempts > 0,
        forall|c1: GraphModel, c2: GraphModel, o1: GraphModel, o2: GraphModel|
            same_structure(g1, c1) && same_structure(g2, c2) && #[trigger] crossover_outcome(t, c1, c2, max_depth, o1, o2)
                ==> passes_default_rules(o1) && passes_default_rules(o2),
    ensures
        r matches Some(p) && passes_default_rules(p.0) && passes_default_rules(p.1),
{
    if r is None {
        let fails = choose|fails: Seq<(GraphModel, GraphModel)>|
            fails.len() == attempts && forall|k: int|
                0 <= k < fails.len() ==> #[trigger] failed_crossover(t, g1, g2, max_depth, fails[k]);
        assert(failed_crossover(t, g1, g2, max_depth, fails[0]));
    }
}

/// Crosses copies of the two graphs by `crossover_type`, retrying on fresh
/// copies up to `max_num_of_operator_attempts` times until both offspring
/// pass the default rules. Returns `None` when the graphs have the same root
/// descriptive ids, when the type is `NoCrossover`, or when no attempt
/// passed; the caller then keeps the parents. The offspring are what the
/// operator gives for copies of the graphs with fresh uids.
pub fn crossover_graphs(
    crossover_type: CrossoverTypesEnum,
    first: &LinkedGraph,
    second: &LinkedGraph,
    max_depth: usize,
    max_num_of_operator_attempts: usize,
    rng: &mut GeneticRng,
) -> (r: Option<(LinkedGraph, LinkedGraph)>)
    requires
        first@.wf(),
        second@.wf(),
        crossover_fits(first@, second@),
    ensures
        crossover_graphs_result(
            crossover_type,
            first@,
            second@,
            max_depth,
            max_num_of_operator_attempts,
            offspring_view(r),
        ),
        root_ids(first@) == root_ids(second@) || crossover_type == CrossoverTypesEnum::NoCrossover ==> r is None,
        r matches Some(p) ==> p.0@.wf() && p.1@.wf() && passes_default_rules(p.0@) && passes_default_rules(p.1@),
        r matches Some(p) ==> exists|c1: GraphModel, c2: GraphModel|
            #![trigger same_structure(first@, c1), same_structure(second@, c2)]
            same_structure(first@, c1) && same_structure(second@, c2) && crossover_outcome(
                crossover_type,
                c1,
                c2,
                max_depth,
                p.0@,
                p.1@,
            ),
{
    if first.graphs_equal(second) {
        return None;
    }
    if crossover_type == CrossoverTypesEnum::NoCrossover {
        return None;
    }
    let mut attempt: usize = 0;
    let ghost mut fails: Seq<(GraphModel, GraphModel)> = Seq::empty();
    while attempt < max_num_of_operator_attempts
        invariant
            first@.wf(),
            second@.wf(),
            crossover_fits(first@, second@),
            root_ids(first@) != root_ids(second@),
            crossover_type != CrossoverTypesEnum::NoCrossover,
            attempt <= max_num_of_operator_attempts,
            fails.len() == attempt,
            forall|k: int|
                0 <= k < fails.len() ==> #[trigger] failed_crossover(crossover_type, first@, second@, max_depth, fails[k]),
        decreases max_num_of_operator_attempts - attempt,
    {
        let mut a = first.deep_clone();
        let mut b = second.deep_clone();
        let ghost c1 = a@;
        let ghost c2 = b@;
        proof {
            lemma_same_links_edges(first@, a@, first@.order.len() as int);
            lemma_same_links_edges(second@, b@, second@.order.len() as int);
        }
        apply_crossover(crossover_type, &mut a, &mut b, max_depth, rng);
        if default_graph_verifier(&a) && default_graph_verifier(&b) {
            proof {
                assert(same_structure(first@, c1) && same_structure(second@, c2));
            }
            return Some((a, b));
        }
        proof {
            assert(same_structure(first@, c1) && same_structure(second@, c2));
            assert(failed_crossover(crossover_type, first@, second@, max_depth, (a@, b@)));
            let f0 = fails;
            fails = fails.push((a@, b@));
            assert forall|k: int| 0 <= k < fails.len() implies #[trigger] failed_crossover(
                crossover_type,
                first@,
                second@,
                max_depth,
                fails[k],
            ) by {
                if k < f0.len() {
                    assert(fails[k] == f0[k]);
                }
            }
        }
        attempt = attempt + 1;
    }
    None
}

} // verus!
