use vstd::prelude::*;
use crate::dag::linked_graph::{GraphModel, LinkedGraph};
use crate::dag::graph_node::root_ids;
use crate::dag::node::NodeId;

verus! {

/// The name and parameters of a node, apart from its graph.
#[derive(Clone, Debug)]
pub struct ConvertedNode {
    pub name: String,
    pub params: Vec<(String, String)>,
}

/// A graph as plain data: its nodes, and its edges `(parent, child)` as
/// positions in `nodes`.
#[derive(Clone, Debug)]
pub struct ConvertedGraph {
    pub nodes: Vec<ConvertedNode>,
    pub edges: Vec<(usize, usize)>,
}

/// The value of a parameter list: each key and value as text.
pub open spec fn params_view(ps: Seq<(String, String)>) -> Seq<(Seq<char>, Seq<char>)> {
    ps.map_values(|p: (String, String)| (p.0@, p.1@))
}

/// Two nodes match: the same name and the same parameters.
pub open spec fn conv_match(a: ConvertedNode, b: ConvertedNode) -> bool {
    a.name@ == b.name@ && params_view(a.params@) == params_view(b.params@)
}

/// The first position of `x` in `s`.
pub open spec fn pos_in(s: Seq<NodeId>, x: NodeId) -> int {
    choose|i: int| 0 <= i < s.len() && s[i] == x
}

/// The edges of the first `k` active nodes of `g`, as positions in the
/// active order: each node's parents in turn.
pub open spec fn digraph_edges(g: GraphModel, k: int) -> Seq<(usize, usize)>
    decreases k,
{
    if k <= 0 {
        Seq::empty()
    } else {
        let c = g.order[k - 1];
        digraph_edges(g, k - 1) + g.parents(c).map_values(|p: NodeId| (pos_in(g.order, p) as usize, (k - 1) as usize))
    }
}

/// Every parent of an active node is active.
pub open spec fn parents_closed(g: GraphModel) -> bool {
    forall|k: int, j: int|
        0 <= k < g.order.len() && 0 <= j < g.parents(g.order[k]).len() ==> g.is_active(#[trigger] g.parents(g.order[k])[j])
}

/// Whether the two nodes match.
fn nodes_match(a: &ConvertedNode, b: &ConvertedNode) -> (r: bool)
    ensures
        r == conv_match(*a, *b),
{
    if a.name != b.name || a.params.len() != b.params.len() {
        proof {
            if a.params.len() != b.params.len() {
                assert(params_view(a.params@).len() != params_view(b.params@).len());
            }
        }
        return false;
    }
    let mut i: usize = 0;
    while i < a.params.len()
        invariant
            a.params@.len() == b.params@.len(),
            i <= a.params@.len(),
            forall|k: int| 0 <= k < i ==> params_view(a.params@)[k] == params_view(b.params@)[k],
        decreases a.params@.len() - i,
    {
        if a.params[i].0 != b.params[i].0 || a.params[i].1 != b.params[i].1 {
            proof {
                assert(params_view(a.params@)[i as int] != params_view(b.params@)[i as int]);
            }
            return false;
        }
        i = i + 1;
    }
    proof {
        assert(params_view(a.params@) =~= params_view(b.params@));
    }
    true
}

/// The position of the active node `x` in the order of `g`.
fn position_of(g: &LinkedGraph, order: &Vec<NodeId>, x: NodeId) -> (r: usize)
    requires
        order@ == g@.order,
        g@.wf(),
        g@.is_active(x),
    ensures
        r == pos_in(g@.order, x),
        r < order@.len(),
{
    let mut i: usize = 0;
    while i < order.len()
        invariant
            order@ == g@.order,
            g@.wf(),
            g@.order.contains(x),
            i <= order@.len(),
            forall|k: int| 0 <= k < i ==> order@[k] != x,
        decreases order@.len() - i,
    {
        if order[i] == x {
            proof {
                let p = pos_in(g@.order, x);
                assert(order@[p] == x);
                assert(g@.order.no_duplicates());
            }
            return i;
        }
        i = i + 1;
    }
    proof {
        let k = choose|k: int| 0 <= k < g@.order.len() && g@.order[k] == x;
        assert(order@[k] == x);
    }
    0
}

/// The graph as plain data: the name and parameters of each active node in
/// order, and an edge `(parent, child)` of positions for each parent of each
/// active node in turn. Every parent of an active node must be active.
pub fn graph_structure_as_digraph(g: &LinkedGraph) -> (r: ConvertedGraph)
    requires
        g@.wf(),
        parents_closed(g@),
    ensures
        r.nodes@.len() == g@.order.len(),
        forall|k: int|
            0 <= k < r.nodes@.len() ==> (#[trigger] r.nodes@[k]).name@ == g@.nodes[g@.order[k].0 as int].name
                && r.nodes@[k].params@ == g@.nodes[g@.order[k].0 as int].params,
        r.edges@ == digraph_edges(g@, g@.order.len() as int),
{
    let order = g.nodes();
    let mut nodes: Vec<ConvertedNode> = Vec::new();
    let mut edges: Vec<(usize, usize)> = Vec::new();
    let mut c: usize = 0;
    while c < order.len()
        invariant
            g@.wf(),
            parents_closed(g@),
            order@ == g@.order,
            c <= order@.len(),
            nodes@.len() == c,
            forall|k: int|
                0 <= k < c ==> (#[trigger] nodes@[k]).name@ == g@.nodes[g@.order[k].0 as int].name
                    && nodes@[k].params@ == g@.nodes[g@.order[k].0 as int].params,
            edges@ == digraph_edges(g@, c as int),
        decreases order@.len() - c,
    {
        let x = order[c];
        proof {
            assert(g@.order[c as int].0 < g@.len());
        }
        let content = g.content(x).duplicate();
        nodes.push(ConvertedNode { name: content.name, params: content.params });
        let ps = g.parents_of(x);
        let ghost e0 = edges@;
        let mut j: usize = 0;
        while j < ps.len()
            invariant
                g@.wf(),
                parents_closed(g@),
                order@ == g@.order,
                c < order@.len(),
                x == g@.order[c as int],
                ps@ == g@.parents(x),
                j <= ps@.len(),
                edges@ == e0 + ps@.take(j as int).map_values(|p: NodeId| (pos_in(g@.order, p) as usize, c)),
            decreases ps@.len() - j,
        {
            proof {
                assert(g@.is_active(g@.parents(g@.order[c as int])[j as int]));
            }
            let pi = position_of(g, &order, ps[j]);
            edges.push((pi, c));
            proof {
                assert(ps@.take(j + 1) =~= ps@.take(j as int).push(ps@[j as int]));
                assert(edges@ =~= e0 + ps@.take(j + 1).map_values(|p: NodeId| (pos_in(g@.order, p) as usize, c)));
            }
            j = j + 1;
        }
        proof {
            assert(ps@.take(ps@.len() as int) =~= ps@);
            assert(digraph_edges(g@, c + 1) == e0 + g@.parents(x).map_values(
                |p: NodeId| (pos_in(g@.order, p) as usize, c),
            ));
        }
        c = c + 1;
    }
    ConvertedGraph { nodes, edges }
}

/// Where `m` sends position `p`: nowhere when `p` lies past `m`.
pub open spec fn target_of(m: Seq<Option<usize>>, p: usize) -> Option<usize> {
    if p < m.len() {
        m[p as int]
    } else {
        None
    }
}

/// The node part of the cost of `m` over its first `i` entries: one for each
/// node sent nowhere or to a node it does not match.
pub open spec fn node_cost(g1: ConvertedGraph, g2: ConvertedGraph, m: Seq<Option<usize>>, i: int) -> nat
    decreases i,
{
    if i <= 0 {
        0
    } else {
        node_cost(g1, g2, m, i - 1) + match m[i - 1] {
            None => 1nat,
            Some(j) => if conv_match(g1.nodes@[i - 1], g2.nodes@[j as int]) {
                0nat
            } else {
                1nat
            },
        }
    }
}

/// The distinct targets of `m`, in the order they first occur.
pub open spec fn used_list(m: Seq<Option<usize>>) -> Seq<usize>
    decreases m.len(),
{
    if m.len() == 0 {
        Seq::empty()
    } else {
        let u = used_list(m.drop_last());
        match m.last() {
            Some(j) => if u.contains(j) {
                u
            } else {
                u.push(j)
            },
            None => u,
        }
    }
}

/// The distinct images under `m` of the edges of `es` whose ends both have a
/// target, in the order they first occur.
pub open spec fn mapped_edges(m: Seq<Option<usize>>, es: Seq<(usize, usize)>) -> Seq<(usize, usize)>
    decreases es.len(),
{
    if es.len() == 0 {
        Seq::empty()
    } else {
        let u = mapped_edges(m, es.drop_last());
        let e = es.last();
        match (target_of(m, e.0), target_of(m, e.1)) {
            (Some(a), Some(b)) => if u.contains((a, b)) {
                u
            } else {
                u.push((a, b))
            },
            _ => u,
        }
    }
}

/// How many edges of `es` have an end without a target under `m`.
pub open spec fn unmapped_count(m: Seq<Option<usize>>, es: Seq<(usize, usize)>) -> nat
    decreases es.len(),
{
    if es.len() == 0 {
        0
    } else {
        unmapped_count(m, es.drop_last()) + if target_of(m, es.last().0) is Some && target_of(m, es.last().1) is Some {
            0nat
        } else {
            1nat
        }
    }
}

/// The distinct pairs of `es`, in the order they first occur.
pub open spec fn distinct_pairs(es: Seq<(usize, usize)>) -> Seq<(usize, usize)>
    decreases es.len(),
{
    if es.len() == 0 {
        Seq::empty()
    } else {
        let u = distinct_pairs(es.drop_last());
        if u.contains(es.last()) {
            u
        } else {
            u.push(es.last())
        }
    }
}

/// How many entries of `a` are missing from `b`.
pub open spec fn count_missing(a: Seq<(usize, usize)>, b: Seq<(usize, usize)>) -> nat
    decreases a.len(),
{
    if a.len() == 0 {
        0
    } else {
        count_missing(a.drop_last(), b) + if b.contains(a.last()) {
            0nat
        } else {
            1nat
        }
    }
}

/// The cost of matching `g1` to `g2` by `m`: the node part, one for each node
/// of `g2` that nothing is sent to, one for each edge of `g1` with an end
/// sent nowhere, and the size of the symmetric difference between the images
/// of the other edges and the edges of `g2` (as sets).
pub open spec fn mapping_cost_of(g1: ConvertedGraph, g2: ConvertedGraph, m: Seq<Option<usize>>) -> int {
    let used = used_list(m).len();
    let spare: int = if g2.nodes@.len() > used {
        g2.nodes@.len() - used
    } else {
        0
    };
    let me = mapped_edges(m, g1.edges@);
    let ge = distinct_pairs(g2.edges@);
    node_cost(g1, g2, m, m.len() as int) + spare + unmapped_count(m, g1.edges@) + count_missing(me, ge) + count_missing(ge, me)
}

/// `m` sends each node of `g1` nowhere or to a node of `g2`, no two to the
/// same one.
pub open spec fn valid_mapping(m: Seq<Option<usize>>, n1: nat, n2: nat) -> bool {
    &&& m.len() == n1
    &&& forall|i: int| 0 <= i < m.len() && (#[trigger] m[i]) is Some ==> m[i]->0 < n2
    &&& forall|i: int, j: int| 0 <= i < j < m.len() && (#[trigger] m[i]) is Some && (#[trigger] m[j]) is Some ==> m[i] != m[j]
}

proof fn lemma_node_cost_bound(g1: ConvertedGraph, g2: ConvertedGraph, m: Seq<Option<usize>>, i: int)
    requires
        i >= 0,
    ensures
        node_cost(g1, g2, m, i) <= i,
    decreases i,
{
    if i > 0 {
        lemma_node_cost_bound(g1, g2, m, i - 1);
    }
}

proof fn lemma_edge_counts_bound(m: Seq<Option<usize>>, es: Seq<(usize, usize)>)
    ensures
        unmapped_count(m, es) <= es.len(),
        mapped_edges(m, es).len() <= es.len(),
        distinct_pairs(es).len() <= es.len(),
    decreases es.len(),
{
    if es.len() > 0 {
        lemma_edge_counts_bound(m, es.drop_last());
    }
}

proof fn lemma_missing_bound(a: Seq<(usize, usize)>, b: Seq<(usize, usize)>)
    ensures
        count_missing(a, b) <= a.len(),
    decreases a.len(),
{
    if a.len() > 0 {
        lemma_missing_bound(a.drop_last(), b);
    }
}

/// Whether `v` holds the pair `p`.
fn has_pair(v: &Vec<(usize, usize)>, p: (usize, usize)) -> (r: bool)
    ensures
        r == v@.contains(p),
{
    let mut i: usize = 0;
    while i < v.len()
        invariant
            i <= v@.len(),
            forall|k: int| 0 <= k < i ==> v@[k] != p,
        decreases v@.len() - i,
    {
        if v[i].0 == p.0 && v[i].1 == p.1 {
            proof {
                assert(v@[i as int] == p);
            }
            return true;
        }
        i = i + 1;
    }
    false
}

/// How many entries of `a` are missing from `b`.
fn missing_from(a: &Vec<(usize, usize)>, b: &Vec<(usize, usize)>) -> (r: usize)
    ensures
        r == count_missing(a@, b@),
{
    let mut r: usize = 0;
    let mut i: usize = 0;
    while i < a.len()
        invariant
            i <= a@.len(),
            r == count_missing(a@.take(i as int), b@),
            r <= i,
        decreases a@.len() - i,
    {
        proof {
            assert(a@.take(i + 1).drop_last() =~= a@.take(i as int));
            assert(a@.take(i + 1).last() == a@[i as int]);
        }
        if !has_pair(b, a[i]) {
            r = r + 1;
        }
        i = i + 1;
    }
    proof {
        assert(a@.take(a@.len() as int) =~= a@);
    }
    r
}

/// The cost of matching `g1` to `g2` by `mapping`; see [`mapping_cost_of`].
fn mapping_cost(g1: &ConvertedGraph, g2: &ConvertedGraph, mapping: &Vec<Option<usize>>) -> (r: u32)
    requires
        mapping@.len() == g1.nodes@.len(),
        forall|i: int| 0 <= i < mapping@.len() && (#[trigger] mapping@[i]) is Some ==> mapping@[i]->0 < g2.nodes@.len(),
        g1.nodes@.len() + g2.nodes@.len() + 2 * g1.edges@.len() + g2.edges@.len() <= u32::MAX,
    ensures
        r == mapping_cost_of(*g1, *g2, mapping@),
{
    let ghost m = mapping@;
    let mut nodes_part: usize = 0;
    let mut used: Vec<usize> = Vec::new();
    let mut i: usize = 0;
    while i < mapping.len()
        invariant
            m == mapping@,
            mapping@.len() == g1.nodes@.len(),
            forall|i: int| 0 <= i < mapping@.len() && (#[trigger] mapping@[i]) is Some ==> mapping@[i]->0 < g2.nodes@.len(),
            i <= m.len(),
            nodes_part == node_cost(*g1, *g2, m, i as int),
            nodes_part <= i,
            used@ == used_list(m.take(i as int)),
        decreases m.len() - i,
    {
        proof {
            assert(m.take(i + 1).drop_last() =~= m.take(i as int));
            assert(m.take(i + 1).last() == m[i as int]);
        }
        match mapping[i] {
            None => {
                nodes_part = nodes_part + 1;
            },
            Some(j) => {
                if !nodes_match(&g1.nodes[i], &g2.nodes[j]) {
                    nodes_part = nodes_part + 1;
                }
                let mut seen = false;
                let mut k: usize = 0;
                while k < used.len()
                    invariant
                        k <= used@.len(),
                        seen == used@.take(k as int).contains(j),
                    decreases used@.len() - k,
                {
                    proof {
                        assert(used@.take(k + 1) =~= used@.take(k as int).push(used@[k as int]));
                        vstd::seq_lib::lemma_seq_contains_after_push(used@.take(k as int), used@[k as int], j);
                    }
                    if used[k] == j {
                        seen = true;
                    }
                    k = k + 1;
                }
                proof {
                    assert(used@.take(used@.len() as int) =~= used@);
                }
                if !seen {
                    used.push(j);
                }
            },
        }
        i = i + 1;
    }
    proof {
        assert(m.take(m.len() as int) =~= m);
    }
    let n2 = g2.nodes.len();
    let spare: usize = if n2 > used.len() { n2 - used.len() } else { 0 };
    let mut unmapped: usize = 0;
    let mut mapped: Vec<(usize, usize)> = Vec::new();
    let mut e: usize = 0;
    while e < g1.edges.len()
        invariant
            m == mapping@,
            e <= g1.edges@.len(),
            unmapped == unmapped_count(m, g1.edges@.take(e as int)),
            mapped@ == mapped_edges(m, g1.edges@.take(e as int)),
            unmapped <= e,
        decreases g1.edges@.len() - e,
    {
        let (p, c) = g1.edges[e];
        proof {
            assert(g1.edges@.take(e + 1).drop_last() =~= g1.edges@.take(e as int));
            assert(g1.edges@.take(e + 1).last() == g1.edges@[e as int]);
        }
        let tp = if p < mapping.len() { mapping[p] } else { None };
        let tc = if c < mapping.len() { mapping[c] } else { None };
        match (tp, tc) {
            (Some(a), Some(b)) => {
                if !has_pair(&mapped, (a, b)) {
                    mapped.push((a, b));
                }
            },
            _ => {
                unmapped = unmapped + 1;
            },
        }
        e = e + 1;
    }
    proof {
        assert(g1.edges@.take(g1.edges@.len() as int) =~= g1.edges@);
    }
    let mut g2_edges: Vec<(usize, usize)> = Vec::new();
    let mut e: usize = 0;
    while e < g2.edges.len()
        invariant
            e <= g2.edges@.len(),
            g2_edges@ == distinct_pairs(g2.edges@.take(e as int)),
        decreases g2.edges@.len() - e,
    {
        proof {
            assert(g2.edges@.take(e + 1).drop_last() =~= g2.edges@.take(e as int));
            assert(g2.edges@.take(e + 1).last() == g2.edges@[e as int]);
        }
        if !has_pair(&g2_edges, g2.edges[e]) {
            g2_edges.push(g2.edges[e]);
        }
        e = e + 1;
    }
    proof {
        assert(g2.edges@.take(g2.edges@.len() as int) =~= g2.edges@);
    }
    let extra = missing_from(&mapped, &g2_edges);
    let lacking = missing_from(&g2_edges, &mapped);
    proof {
        lemma_edge_counts_bound(m, g1.edges@);
        lemma_edge_counts_bound(m, g2.edges@);
        lemma_missing_bound(mapped@, g2_edges@);
        lemma_missing_bound(g2_edges@, mapped@);
    }
    (nodes_part + spare + unmapped + extra + lacking) as u32
}

/// `ext` is a valid mapping that agrees with `m` on its first `idx` entries.
pub open spec fn completes(g1: ConvertedGraph, g2: ConvertedGraph, m: Seq<Option<usize>>, idx: int, ext: Seq<Option<usize>>) -> bool {
    valid_mapping(ext, g1.nodes@.len(), g2.nodes@.len()) && ext.take(idx) == m.take(idx)
}

/// The costs fit in `u32`.
pub open spec fn costs_fit(g1: ConvertedGraph, g2: ConvertedGraph) -> bool {
    g1.nodes@.len() + g2.nodes@.len() + 2 * g1.edges@.len() + g2.edges@.len() <= u32::MAX
}

/// Every valid mapping costs at most the size bound.
proof fn lemma_cost_bound(g1: ConvertedGraph, g2: ConvertedGraph, m: Seq<Option<usize>>)
    requires
        m.len() == g1.nodes@.len(),
    ensures
        0 <= mapping_cost_of(g1, g2, m) <= g1.nodes@.len() + g2.nodes@.len() + 2 * g1.edges@.len() + g2.edges@.len(),
{
    lemma_node_cost_bound(g1, g2, m, m.len() as int);
    lemma_edge_counts_bound(m, g1.edges@);
    lemma_edge_counts_bound(m, g2.edges@);
    lemma_missing_bound(mapped_edges(m, g1.edges@), distinct_pairs(g2.edges@));
    lemma_missing_bound(distinct_pairs(g2.edges@), mapped_edges(m, g1.edges@));
}

/// Tries every way of completing `mapping` from position `idx` on (each node
/// sent nowhere or to a node of `g2` that `used` does not mark), lowering
/// `best` to the least cost met.
fn enumerate_mappings(
    g1: &ConvertedGraph,
    g2: &ConvertedGraph,
    idx: usize,
    mapping: &mut Vec<Option<usize>>,
    used: &mut Vec<bool>,
    best: &mut u32,
)
    requires
        costs_fit(*g1, *g2),
        old(mapping)@.len() == g1.nodes@.len(),
        idx <= old(mapping)@.len(),
        forall|i: int| idx <= i < old(mapping)@.len() ==> (#[trigger] old(mapping)@[i]) is None,
        forall|i: int| 0 <= i < idx && (#[trigger] old(mapping)@[i]) is Some ==> old(mapping)@[i]->0 < g2.nodes@.len(),
        forall|i: int, j: int|
            0 <= i < j < idx && (#[trigger] old(mapping)@[i]) is Some && (#[trigger] old(mapping)@[j]) is Some ==> old(
                mapping,
            )@[i] != old(mapping)@[j],
        old(used)@.len() == g2.nodes@.len(),
        forall|t: int|
            0 <= t < old(used)@.len() ==> (#[trigger] old(used)@[t] <==> exists|i: int|
                0 <= i < idx && old(mapping)@[i] == Some(t as usize)),
    ensures
        final(mapping)@ == old(mapping)@,
        final(used)@ == old(used)@,
        *final(best) <= *old(best),
        forall|ext: Seq<Option<usize>>|
            #[trigger] completes(*g1, *g2, old(mapping)@, idx as int, ext) ==> *final(best) <= mapping_cost_of(*g1, *g2, ext),
        *final(best) == *old(best) || exists|ext: Seq<Option<usize>>|
            #[trigger] completes(*g1, *g2, old(mapping)@, idx as int, ext) && mapping_cost_of(*g1, *g2, ext) == *final(best),
    decreases g1.nodes@.len() - idx,
{
    let ghost m = mapping@;
    let ghost u0 = used@;
    let ghost b0 = *best;
    let n1 = mapping.len();
    if idx == n1 {
        let cost = mapping_cost(g1, g2, mapping);
        if cost < *best {
            *best = cost;
        }
        proof {
            assert(m.take(idx as int) =~= m);
            assert forall|ext: Seq<Option<usize>>| #[trigger] completes(*g1, *g2, m, idx as int, ext) implies *best
                <= mapping_cost_of(*g1, *g2, ext) by {
                assert(ext.take(idx as int) =~= ext);
            }
            assert(valid_mapping(m, g1.nodes@.len(), g2.nodes@.len()));
            assert(completes(*g1, *g2, m, idx as int, m));
        }
        return;
    }
    proof {
        assert(m.update(idx as int, None) =~= m);
    }
    mapping.set(idx, None);
    enumerate_mappings(g1, g2, idx + 1, mapping, used, best);
    proof {
        assert forall|ext: Seq<Option<usize>>|
            completes(*g1, *g2, m, idx as int, ext) && ext[idx as int] is None implies #[trigger] completes(
            *g1,
            *g2,
            m,
            idx + 1,
            ext,
        ) by {
            assert(ext.take(idx + 1) =~= ext.take(idx as int).push(ext[idx as int]));
            assert(m.take(idx + 1) =~= m.take(idx as int).push(m[idx as int]));
        }
        assert forall|ext: Seq<Option<usize>>| #[trigger] completes(*g1, *g2, m, idx + 1, ext) implies completes(
            *g1,
            *g2,
            m,
            idx as int,
            ext,
        ) by {
            assert(ext.take(idx as int) =~= ext.take(idx + 1).take(idx as int));
            assert(m.take(idx as int) =~= m.take(idx + 1).take(idx as int));
        }
        assert forall|ext: Seq<Option<usize>>|
            #[trigger] completes(*g1, *g2, m, idx as int, ext) && (ext[idx as int] is None || ext[idx as int]->0 < 0)
                implies *best <= mapping_cost_of(*g1, *g2, ext) by {
            assert(completes(*g1, *g2, m, idx + 1, ext));
        }
    }
    let n2 = used.len();
    let mut j: usize = 0;
    while j < n2
        invariant
            costs_fit(*g1, *g2),
            n1 == m.len(),
            n1 == g1.nodes@.len(),
            n2 == g2.nodes@.len(),
            idx < n1,
            mapping@ == m,
            used@ == u0,
            u0.len() == n2,
            forall|i: int| idx <= i < m.len() ==> (#[trigger] m[i]) is None,
            forall|i: int| 0 <= i < idx && (#[trigger] m[i]) is Some ==> m[i]->0 < g2.nodes@.len(),
            forall|i: int, k: int| 0 <= i < k < idx && (#[trigger] m[i]) is Some && (#[trigger] m[k]) is Some ==> m[i] != m[k],
            forall|t: int| 0 <= t < u0.len() ==> (#[trigger] u0[t] <==> exists|i: int| 0 <= i < idx && m[i] == Some(t as usize)),
            j <= n2,
            *best <= b0,
            forall|ext: Seq<Option<usize>>|
                #[trigger] completes(*g1, *g2, m, idx as int, ext) && (ext[idx as int] is None || ext[idx as int]->0 < j)
                    ==> *best <= mapping_cost_of(*g1, *g2, ext),
            *best == b0 || exists|ext: Seq<Option<usize>>|
                #[trigger] completes(*g1, *g2, m, idx as int, ext) && mapping_cost_of(*g1, *g2, ext) == *best,
        decreases n2 - j,
    {
        let ghost bj = *best;
        if !used[j] {
            used.set(j, true);
            mapping.set(idx, Some(j));
            let ghost m2 = mapping@;
            let ghost u2 = used@;
            proof {
                assert forall|t: int| 0 <= t < u2.len() implies (#[trigger] u2[t] <==> exists|i: int|
                    0 <= i < idx + 1 && m2[i] == Some(t as usize)) by {
                    if t == j {
                        assert(m2[idx as int] == Some(t as usize));
                    } else {
                        if u2[t] {
                            let i = choose|i: int| 0 <= i < idx && m[i] == Some(t as usize);
                            assert(m2[i] == Some(t as usize));
                        }
                        if exists|i: int| 0 <= i < idx + 1 && m2[i] == Some(t as usize) {
                            let i = choose|i: int| 0 <= i < idx + 1 && m2[i] == Some(t as usize);
                            assert(i != idx);
                            assert(m[i] == Some(t as usize));
                        }
                    }
                }
                assert forall|i: int, k: int| 0 <= i < k < idx + 1 && (#[trigger] m2[i]) is Some && (#[trigger] m2[k]) is Some implies m2[i]
                    != m2[k] by {
                    if k == idx {
                        assert(m2[i] == m[i]);
                        if m[i] == Some(j) {
                            assert(u0[j as int]);
                        }
                    } else {
                        assert(m2[i] == m[i] && m2[k] == m[k]);
                    }
                }
            }
            enumerate_mappings(g1, g2, idx + 1, mapping, used, best);
            mapping.set(idx, None);
            used.set(j, false);
            proof {
                assert(mapping@ =~= m);
                assert(used@ =~= u0);
                assert forall|ext: Seq<Option<usize>>|
                    completes(*g1, *g2, m, idx as int, ext) && ext[idx as int] == Some(j) implies #[trigger] completes(
                    *g1,
                    *g2,
                    m2,
                    idx + 1,
                    ext,
                ) by {
                    assert(ext.take(idx + 1) =~= ext.take(idx as int).push(ext[idx as int]));
                    assert(m2.take(idx + 1) =~= m.take(idx as int).push(Some(j)));
                }
                assert forall|ext: Seq<Option<usize>>| #[trigger] completes(*g1, *g2, m2, idx + 1, ext) implies completes(
                    *g1,
                    *g2,
                    m,
                    idx as int,
                    ext,
                ) by {
                    assert(ext.take(idx as int) =~= ext.take(idx + 1).take(idx as int));
                    assert(m.take(idx as int) =~= m2.take(idx + 1).take(idx as int));
                }
                assert forall|ext: Seq<Option<usize>>|
                    #[trigger] completes(*g1, *g2, m, idx as int, ext) && (ext[idx as int] is None || ext[idx as int]->0 < j
                        + 1) implies *best <= mapping_cost_of(*g1, *g2, ext) by {
                    if ext[idx as int] == Some(j) {
                        assert(completes(*g1, *g2, m2, idx + 1, ext));
                    }
                }
            }
        } else {
            proof {
                assert forall|ext: Seq<Option<usize>>|
                    #[trigger] completes(*g1, *g2, m, idx as int, ext) && (ext[idx as int] is None || ext[idx as int]->0 < j
                        + 1) implies *best <= mapping_cost_of(*g1, *g2, ext) by {
                    if ext[idx as int] == Some(j) {
                        let i = choose|i: int| 0 <= i < idx && m[i] == Some(j);
                        assert(ext.take(idx as int)[i] == m.take(idx as int)[i]);
                        assert(ext[i] == Some(j));
                        assert(false);
                    }
                }
            }
        }
        j = j + 1;
    }
    proof {
        assert forall|ext: Seq<Option<usize>>| #[trigger] completes(*g1, *g2, m, idx as int, ext) implies *best
            <= mapping_cost_of(*g1, *g2, ext) by {
            if ext[idx as int] is Some {
                assert(ext[idx as int]->0 < n2);
            }
        }
    }
}

/// The graph edit distance between `g1` and `g2`: 0 when both have no
/// nodes, else the least cost (see [`mapping_cost_of`]) of a mapping that
/// sends each node of `g1` nowhere or to its own node of `g2`.
pub fn graph_edit_distance(g1: &ConvertedGraph, g2: &ConvertedGraph) -> (r: u32)
    requires
        costs_fit(*g1, *g2),
    ensures
        g1.nodes@.len() == 0 && g2.nodes@.len() == 0 ==> r == 0,
        !(g1.nodes@.len() == 0 && g2.nodes@.len() == 0) ==> {
            &&& forall|m: Seq<Option<usize>>|
                #[trigger] valid_mapping(m, g1.nodes@.len(), g2.nodes@.len()) ==> r <= mapping_cost_of(*g1, *g2, m)
            &&& exists|m: Seq<Option<usize>>|
                #[trigger] valid_mapping(m, g1.nodes@.len(), g2.nodes@.len()) && mapping_cost_of(*g1, *g2, m) == r
        },
{
    if g1.nodes.len() == 0 && g2.nodes.len() == 0 {
        return 0;
    }
    let mut mapping: Vec<Option<usize>> = Vec::new();
    while mapping.len() < g1.nodes.len()
        invariant
            mapping@.len() <= g1.nodes@.len(),
            forall|i: int| 0 <= i < mapping@.len() ==> (#[trigger] mapping@[i]) is None,
        decreases g1.nodes@.len() - mapping@.len(),
    {
        mapping.push(None);
    }
    let mut used: Vec<bool> = Vec::new();
    while used.len() < g2.nodes.len()
        invariant
            used@.len() <= g2.nodes@.len(),
            forall|i: int| 0 <= i < used@.len() ==> !(#[trigger] used@[i]),
        decreases g2.nodes@.len() - used@.len(),
    {
        used.push(false);
    }
    let ghost m0 = mapping@;
    let mut best: u32 = u32::MAX;
    enumerate_mappings(g1, g2, 0, &mut mapping, &mut used, &mut best);
    proof {
        assert forall|m: Seq<Option<usize>>| #[trigger] valid_mapping(m, g1.nodes@.len(), g2.nodes@.len()) implies best
            <= mapping_cost_of(*g1, *g2, m) by {
            assert(m.take(0) =~= m0.take(0));
            assert(completes(*g1, *g2, m0, 0, m));
        }
        if best == u32::MAX {
            assert(valid_mapping(m0, g1.nodes@.len(), g2.nodes@.len()));
            assert(m0.take(0) =~= m0.take(0));
            assert(completes(*g1, *g2, m0, 0, m0));
            lemma_cost_bound(*g1, *g2, m0);
            assert(mapping_cost_of(*g1, *g2, m0) == best);
        } else {
            let ext = choose|ext: Seq<Option<usize>>| #[trigger] completes(*g1, *g2, m0, 0, ext) && mapping_cost_of(*g1, *g2, ext) == best;
            assert(valid_mapping(ext, g1.nodes@.len(), g2.nodes@.len()));
        }
    }
    best
}

/// `c` is the plain form of `g` that [`graph_structure_as_digraph`] gives.
pub open spec fn converted_from(g: GraphModel, c: ConvertedGraph) -> bool {
    &&& c.nodes@.len() == g.order.len()
    &&& forall|k: int|
        0 <= k < c.nodes@.len() ==> (#[trigger] c.nodes@[k]).name@ == g.nodes[g.order[k].0 as int].name
            && c.nodes@[k].params@ == g.nodes[g.order[k].0 as int].params
    &&& c.edges@ == digraph_edges(g, g.order.len() as int)
}

/// `d` is the edit distance [`graph_edit_distance`] gives for `c1` and `c2`.
pub open spec fn is_edit_distance(c1: ConvertedGraph, c2: ConvertedGraph, d: u32) -> bool {
    if c1.nodes@.len() == 0 && c2.nodes@.len() == 0 {
        d == 0
    } else {
        &&& forall|m: Seq<Option<usize>>|
            #[trigger] valid_mapping(m, c1.nodes@.len(), c2.nodes@.len()) ==> d <= mapping_cost_of(c1, c2, m)
        &&& exists|m: Seq<Option<usize>>|
            #[trigger] valid_mapping(m, c1.nodes@.len(), c2.nodes@.len()) && mapping_cost_of(c1, c2, m) == d
    }
}

/// The distance between two graphs: 0 when they have the same root
/// descriptive ids, else the edit distance between their plain forms, as an
/// `i32`.
pub fn get_distance_between(a: &LinkedGraph, b: &LinkedGraph) -> (r: i32)
    requires
        a@.wf(),
        b@.wf(),
        a@.len() < usize::MAX,
        b@.len() < usize::MAX,
        parents_closed(a@),
        parents_closed(b@),
        a@.order.len() + b@.order.len() + 2 * digraph_edges(a@, a@.order.len() as int).len() + digraph_edges(
            b@,
            b@.order.len() as int,
        ).len() <= u32::MAX,
    ensures
        root_ids(a@) == root_ids(b@) ==> r == 0,
        root_ids(a@) != root_ids(b@) ==> exists|c1: ConvertedGraph, c2: ConvertedGraph, d: u32|
            #![trigger converted_from(a@, c1), converted_from(b@, c2), is_edit_distance(c1, c2, d)]
            converted_from(a@, c1) && converted_from(b@, c2) && is_edit_distance(c1, c2, d) && r == d as i32,
{
    if a.graphs_equal(b) {
        return 0;
    }
    let c1 = graph_structure_as_digraph(a);
    let c2 = graph_structure_as_digraph(b);
    let d = graph_edit_distance(&c1, &c2);
    proof {
        assert(converted_from(a@, c1));
        assert(converted_from(b@, c2));
        assert(is_edit_distance(c1, c2, d));
    }
    d as i32
}

/// The mapping that sends each of the first `n` nodes to itself.
pub open spec fn identity_mapping(n: nat) -> Seq<Option<usize>> {
    Seq::new(n, |i: int| Some(i as usize))
}

proof fn lemma_identity_node_cost(g: ConvertedGraph, k: int)
    requires
        0 <= k <= g.nodes@.len(),
        g.nodes@.len() <= usize::MAX,
    ensures
        node_cost(g, g, identity_mapping(g.nodes@.len()), k) == 0,
    decreases k,
{
    if k > 0 {
        lemma_identity_node_cost(g, k - 1);
        assert(identity_mapping(g.nodes@.len())[k - 1] == Some((k - 1) as usize));
    }
}

proof fn lemma_identity_used(n: nat, k: int)
    requires
        0 <= k <= n,
        n <= usize::MAX,
    ensures
        used_list(identity_mapping(n).take(k)) == Seq::new(k as nat, |i: int| i as usize),
    decreases k,
{
    let m = identity_mapping(n).take(k);
    if k > 0 {
        lemma_identity_used(n, k - 1);
        assert(m.drop_last() =~= identity_mapping(n).take(k - 1));
        let prev = Seq::new((k - 1) as nat, |i: int| i as usize);
        assert(!prev.contains((k - 1) as usize));
        assert(m.last() == Some((k - 1) as usize));
        assert(prev.push((k - 1) as usize) =~= Seq::new(k as nat, |i: int| i as usize));
    } else {
        assert(m =~= Seq::<Option<usize>>::empty());
    }
}

proof fn lemma_identity_edges(n: nat, es: Seq<(usize, usize)>)
    requires
        n <= usize::MAX,
        forall|k: int| 0 <= k < es.len() ==> (#[trigger] es[k]).0 < n && es[k].1 < n,
    ensures
        unmapped_count(identity_mapping(n), es) == 0,
        mapped_edges(identity_mapping(n), es) == distinct_pairs(es),
    decreases es.len(),
{
    if es.len() > 0 {
        lemma_identity_edges(n, es.drop_last());
        let e = es.last();
        assert(e == es[es.len() - 1]);
        assert(target_of(identity_mapping(n), e.0) == Some(e.0));
        assert(target_of(identity_mapping(n), e.1) == Some(e.1));
    }
}

proof fn lemma_missing_self(a: Seq<(usize, usize)>, b: Seq<(usize, usize)>)
    requires
        forall|k: int| 0 <= k < a.len() ==> b.contains(#[trigger] a[k]),
    ensures
        count_missing(a, b) == 0,
    decreases a.len(),
{
    if a.len() > 0 {
        lemma_missing_self(a.drop_last(), b);
        assert(a.last() == a[a.len() - 1]);
    }
}

/// A graph is at edit distance 0 from itself: mapping each node to itself
/// costs nothing, so no mapping does better.
pub proof fn law_edit_distance_to_self(c: ConvertedGraph, d: u32)
    requires
        c.nodes@.len() <= usize::MAX,
        forall|k: int| 0 <= k < c.edges@.len() ==> (#[trigger] c.edges@[k]).0 < c.nodes@.len() && c.edges@[k].1 < c.nodes@.len(),
        is_edit_distance(c, c, d),
    ensures
        d == 0,
{
    if c.nodes@.len() > 0 {
        let n = c.nodes@.len();
        let m = identity_mapping(n);
        assert(valid_mapping(m, n, n));
        lemma_identity_node_cost(c, n as int);
        lemma_identity_used(n, n as int);
        assert(m.take(n as int) =~= m);
        lemma_identity_edges(n, c.edges@);
        let dp = distinct_pairs(c.edges@);
        assert forall|k: int| 0 <= k < dp.len() implies dp.contains(#[trigger] dp[k]) by {
        }
        lemma_missing_self(dp, dp);
        assert(mapping_cost_of(c, c, m) == 0);
    }
}

} // verus!
