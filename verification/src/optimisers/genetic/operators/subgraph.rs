use vstd::prelude::*;
use crate::dag::graph_utils::{all_simple_paths, components_spec, get_all_simple_paths, get_connected_components, lemma_paths_extend, path_edges, path_neighbours, paths_through};
use crate::dag::linked_graph::{adds_result, GraphModel, LinkedGraph, dedup, lemma_dedup, lemma_filter_contains_iff, lemma_without_contains, ne_pred, stacked, without};
use crate::dag::node::{NodeId, NodeModel};
use crate::optimisers::genetic::rng::GeneticRng;

verus! {

/// The number of parent links over all arena nodes.
pub open spec fn parent_total(nodes: Seq<NodeModel>) -> nat
    decreases nodes.len(),
{
    if nodes.len() == 0 {
        0
    } else {
        parent_total(nodes.drop_last()) + nodes.last().parents.len()
    }
}

/// Shortening the parents of one node lowers the number of parent links.
proof fn lemma_parent_total_drop(nodes: Seq<NodeModel>, c: int, m: NodeModel)
    requires
        0 <= c < nodes.len(),
        m.parents.len() < nodes[c].parents.len(),
    ensures
        parent_total(nodes.update(c, m)) < parent_total(nodes),
    decreases nodes.len(),
{
    let u = nodes.update(c, m);
    if c == nodes.len() - 1 {
        assert(u.drop_last() =~= nodes.drop_last());
    } else {
        assert(u.drop_last() =~= nodes.drop_last().update(c, m));
        lemma_parent_total_drop(nodes.drop_last(), c, m);
    }
}

/// Removing an element that is there shortens a sequence.
proof fn lemma_without_shorter(s: Seq<NodeId>, x: NodeId)
    requires
        s.contains(x),
    ensures
        without(s, x).len() < s.len(),
    decreases s.len(),
{
    reveal(Seq::filter);
    if s.last() == x {
        s.drop_last().lemma_filter_len(ne_pred(x));
    } else {
        assert(s.drop_last().contains(x)) by {
            let i = choose|i: int| 0 <= i < s.len() && s[i] == x;
            assert(s.drop_last()[i] == x);
        }
        lemma_without_shorter(s.drop_last(), x);
    }
}

/// `h` is `g` with some parent links taken away and nothing else changed.
pub open spec fn fewer_links(g: GraphModel, h: GraphModel) -> bool {
    &&& h.order == g.order
    &&& h.nodes.len() == g.nodes.len()
    &&& forall|i: int|
        0 <= i < g.nodes.len() ==> (#[trigger] h.nodes[i]).uid == g.nodes[i].uid && h.nodes[i].name == g.nodes[i].name
            && h.nodes[i].params == g.nodes[i].params
    &&& forall|x: NodeId, y: NodeId| x.0 < g.len() && #[trigger] h.has_parent(x, y) ==> g.has_parent(x, y)
}

/// `fewer_links` holds of a graph and itself.
proof fn lemma_fewer_refl(g: GraphModel)
    ensures
        fewer_links(g, g),
{
}

/// `fewer_links` is transitive.
proof fn lemma_fewer_trans(a: GraphModel, b: GraphModel, c: GraphModel)
    requires
        fewer_links(a, b),
        fewer_links(b, c),
    ensures
        fewer_links(a, c),
{
    assert forall|x: NodeId, y: NodeId| x.0 < a.len() && #[trigger] c.has_parent(x, y) implies a.has_parent(x, y) by {
        assert(b.has_parent(x, y));
    }
    assert forall|i: int| 0 <= i < a.nodes.len() implies (#[trigger] c.nodes[i]).uid == a.nodes[i].uid && c.nodes[i].name
        == a.nodes[i].name && c.nodes[i].params == a.nodes[i].params by {
        assert(b.nodes[i].uid == a.nodes[i].uid);
    }
}

/// Taking `p` out of the parents of `c` takes a link away.
proof fn lemma_unlink_effect(g: GraphModel, p: NodeId, c: NodeId)
    requires
        g.wf(),
        c.0 < g.len(),
        g.has_parent(c, p),
    ensures
        fewer_links(g, g.with_parents(c, without(g.parents(c), p))),
        parent_total(g.with_parents(c, without(g.parents(c), p)).nodes) < parent_total(g.nodes),
        !g.with_parents(c, without(g.parents(c), p)).has_parent(c, p),
{
    let h = g.with_parents(c, without(g.parents(c), p));
    lemma_without_contains(g.parents(c), p, p);
    lemma_without_shorter(g.parents(c), p);
    lemma_parent_total_drop(g.nodes, c.0 as int, NodeModel { parents: without(g.parents(c), p), ..g.nodes[c.0 as int] });
    assert forall|x: NodeId, y: NodeId| x.0 < g.len() && #[trigger] h.has_parent(x, y) implies g.has_parent(x, y) by {
        if x == c {
            lemma_without_contains(g.parents(c), p, y);
        } else {
            assert(h.nodes[x.0 as int] == g.nodes[x.0 as int]);
        }
    }
    assert forall|i: int| 0 <= i < g.nodes.len() implies (#[trigger] h.nodes[i]).uid == g.nodes[i].uid && h.nodes[i].name
        == g.nodes[i].name && h.nodes[i].params == g.nodes[i].params by {
    }
}

/// The link between `d` and `y`, in either direction, is in `g` and not in `h`.
pub open spec fn lost_between(g: GraphModel, h: GraphModel, d: NodeId, y: NodeId) -> bool {
    (g.has_parent(d, y) && !h.has_parent(d, y)) || (g.has_parent(y, d) && !h.has_parent(y, d))
}

/// `d` lost a link, to a parent or to a child, between `g` and `h`.
pub open spec fn lost_link(g: GraphModel, h: GraphModel, d: NodeId) -> bool {
    d.0 < g.len() && exists|y: NodeId| y.0 < g.len() && #[trigger] lost_between(g, h, d, y)
}

/// A simple path from `source` starts at `source` and goes on to an active
/// node linked to it.
proof fn lemma_simple_path_start(g: GraphModel, source: NodeId, target: NodeId, k: int)
    requires
        g.wf(),
        0 <= k < all_simple_paths(g, source, target).len(),
    ensures
        ({
            let q = all_simple_paths(g, source, target)[k];
            &&& q.len() >= 2
            &&& q[0] == source
            &&& g.is_active(q[1])
            &&& q[1].0 < g.len()
            &&& g.has_parent(q[1], source) || g.has_parent(source, q[1])
        }),
{
    let first = dedup(g.parents(source) + g.children(source));
    lemma_paths_extend(g, seq![source], first, target, g.len());
    let q = all_simple_paths(g, source, target)[k];
    assert(q.take(1) == seq![source]);
    assert(q[0] == q.take(1)[0]);
    lemma_dedup(g.parents(source) + g.children(source));
    let both = g.parents(source) + g.children(source);
    assert(both.contains(q[1]));
    let j = choose|j: int| 0 <= j < both.len() && both[j] == q[1];
    if j < g.parents(source).len() {
        assert(g.parents(source)[j] == q[1]);
    } else {
        assert(g.children(source)[j - g.parents(source).len()] == q[1]);
        assert(g.children(source).contains(q[1]));
        lemma_filter_contains_iff(g.order, g.child_pred(source), q[1]);
    }
    assert(g.order.contains(q[1]));
    let i = choose|i: int| 0 <= i < g.order.len() && g.order[i] == q[1];
    assert(g.order[i].0 < g.len());
}

/// The edges of the first `k` active nodes end at active nodes that list
/// their parent.
proof fn lemma_edges_upto_child(g: GraphModel, k: int, t: int)
    requires
        g.wf(),
        k <= g.order.len(),
        0 <= t < g.edges_upto(k).len(),
    ensures
        g.is_active(g.edges_upto(k)[t].1),
        g.has_parent(g.edges_upto(k)[t].1, g.edges_upto(k)[t].0),
        g.edges_upto(k)[t].1.0 < g.len(),
        g.edges_upto(k)[t].0.0 < g.len(),
    decreases k,
{
    if k > 0 {
        let c = g.order[k - 1];
        let prev = g.edges_upto(k - 1);
        let add = g.parents(c).map_values(|p: NodeId| (p, c));
        assert(g.edges_upto(k) == prev + add);
        if t >= prev.len() {
            let j = t - prev.len();
            assert(g.edges_upto(k)[t] == add[j]);
            assert(g.parents(c)[j] == add[j].0);
            assert(g.nodes[c.0 as int].parents[j].0 < g.len());
            assert(g.order[k - 1].0 < g.len());
        } else {
            assert(g.edges_upto(k)[t] == prev[t]);
            lemma_edges_upto_child(g, k - 1, t);
        }
    }
}

/// A path of edges that starts at `source` with a link from `source` to an
/// active node.
pub open spec fn path_ok(g: GraphModel, source: NodeId, p: Seq<(NodeId, NodeId)>) -> bool {
    &&& p.len() >= 1
    &&& p[0].0 == source
    &&& p[0].1.0 < g.len()
    &&& g.is_active(p[0].1)
    &&& g.has_parent(p[0].1, source) || g.has_parent(source, p[0].1)
}

/// The paths of `s` sorted by length, shorter first, paths of one length in
/// the order they came.
fn sort_paths_by_len(s: Vec<Vec<(NodeId, NodeId)>>) -> (r: (Vec<Vec<(NodeId, NodeId)>>, Ghost<Seq<int>>))
    ensures
        r.0@.len() == s@.len(),
        forall|k: int| 0 <= k < r.0@.len() ==> s@.map_values(|v: Vec<(NodeId, NodeId)>| v@).contains(#[trigger] r.0@[k]@),
        r.1@.len() == r.0@.len(),
        forall|k: int| 0 <= k < r.0@.len() ==> 0 <= #[trigger] r.1@[k] < s@.len() && r.0@[k]@ == s@[r.1@[k]]@,
        forall|a: int, b: int| 0 <= a < b < r.0@.len() ==> r.0@[a]@.len() <= r.0@[b]@.len(),
{
    let ghost orig = s@.map_values(|v: Vec<(NodeId, NodeId)>| v@);
    let ghost so = s@;
    let total = s.len();
    let mut src = s;
    let mut t: Vec<Vec<(NodeId, NodeId)>> = Vec::new();
    let ghost mut idx: Seq<int> = Seq::empty();
    let mut n: usize = 0;
    while src.len() > 0
        invariant
            n <= so.len(),
            total == so.len(),
            orig == so.map_values(|v: Vec<(NodeId, NodeId)>| v@),
            src@ == so.skip(n as int),
            t@.len() == n,
            idx.len() == n,
            forall|k: int| 0 <= k < n ==> 0 <= #[trigger] idx[k] < so.len() && t@[k]@ == so[idx[k]]@,
            forall|k: int| 0 <= k < t@.len() ==> orig.contains(#[trigger] t@[k]@),
            forall|a: int, b: int| 0 <= a < b < t@.len() ==> t@[a]@.len() <= t@[b]@.len(),
        decreases src@.len(),
    {
        proof {
            assert(so.skip(n as int)[0] == so[n as int]);
        }
        let e = src.remove(0);
        proof {
            assert(src@ =~= so.skip(n + 1));
            assert(orig[n as int] == e@);
        }
        let ghost t0 = t@;
        let mut i: usize = 0;
        let mut stop = false;
        while i < t.len() && !stop
            invariant
                t@ == t0,
                i <= t0.len(),
                forall|a: int| 0 <= a < i ==> t0[a]@.len() <= e@.len(),
                stop ==> i < t0.len() && t0[i as int]@.len() > e@.len(),
            decreases t0.len() - i, if stop { 0int } else { 1int },
        {
            if t[i].len() > e.len() {
                stop = true;
            } else {
                i = i + 1;
            }
        }
        t.insert(i, e);
        proof {
            let idx0 = idx;
            idx = idx0.insert(i as int, n as int);
            assert forall|k: int| 0 <= k < n + 1 implies 0 <= #[trigger] idx[k] < so.len() && t@[k]@ == so[idx[k]]@ by {
                if k < i {
                    assert(t@[k] == t0[k] && idx[k] == idx0[k]);
                } else if k > i {
                    assert(t@[k] == t0[k - 1] && idx[k] == idx0[k - 1]);
                } else {
                    assert(idx[k] == n);
                }
            }
            assert forall|k: int| 0 <= k < t@.len() implies orig.contains(#[trigger] t@[k]@) by {
                if k < i {
                    assert(t@[k] == t0[k]);
                } else if k > i {
                    assert(t@[k] == t0[k - 1]);
                } else {
                    assert(orig[n as int] == t@[k]@);
                }
            }
            assert forall|a: int, b: int| 0 <= a < b < t@.len() implies t@[a]@.len() <= t@[b]@.len() by {
                if b < i {
                    assert(t@[a] == t0[a] && t@[b] == t0[b]);
                } else if a > i {
                    assert(t@[a] == t0[a - 1] && t@[b] == t0[b - 1]);
                } else if a == i {
                    assert(t@[b] == t0[b - 1]);
                    if stop {
                        assert(t0[i as int]@.len() <= t0[b - 1]@.len() || b - 1 == i);
                    }
                } else if b == i {
                    assert(t@[a] == t0[a]);
                } else {
                    assert(t@[a] == t0[a] && t@[b] == t0[b - 1]);
                }
            }
        }
        n = n + 1;
    }
    (t, Ghost(idx))
}

/// A link lost stays lost when more links are taken away.
proof fn lemma_lost_persists(g: GraphModel, h: GraphModel, k: GraphModel, d: NodeId)
    requires
        lost_link(g, h, d),
        fewer_links(h, k),
        h.len() == g.len(),
    ensures
        lost_link(g, k, d),
{
    let y = choose|y: NodeId| y.0 < g.len() && #[trigger] lost_between(g, h, d, y);
    if g.has_parent(d, y) && !h.has_parent(d, y) {
        assert(!k.has_parent(d, y));
    } else {
        assert(!k.has_parent(y, d));
    }
    assert(lost_between(g, k, d, y));
}

/// `h2` is `h` with `p` taken out of the parents of `c` when both are active
/// and `p` is a parent of `c`, else `h` as it is.
pub open spec fn disconnected(h: GraphModel, p: NodeId, c: NodeId, h2: GraphModel) -> bool {
    if h.has_parent(c, p) && h.is_active(p) && h.is_active(c) {
        h2 == h.with_parents(c, without(h.parents(c), p))
    } else {
        h2 == h
    }
}

/// `h2` is `h` with the link between `a` and `b` taken away: `a` as a parent
/// of `b` when it is one, else `b` as a parent of `a`.
pub open spec fn unlinked(h: GraphModel, a: NodeId, b: NodeId, h2: GraphModel) -> bool {
    if h.has_parent(b, a) {
        disconnected(h, a, b, h2)
    } else {
        disconnected(h, b, a, h2)
    }
}

/// `h2` is `h` with the first link of a simple path from `s` to `t` taken
/// away.
pub open spec fn cut_step(h: GraphModel, s: NodeId, t: NodeId, h2: GraphModel) -> bool {
    exists|j: int|
        0 <= j < all_simple_paths(h, s, t).len() && path_edges(#[trigger] all_simple_paths(h, s, t)[j]).len() > 0 && unlinked(
            h,
            path_edges(all_simple_paths(h, s, t)[j])[0].0,
            path_edges(all_simple_paths(h, s, t)[j])[0].1,
            h2,
        )
}

/// `h` comes from `g` by taking `t` out of the parents of `s`, then, step by
/// step, the first link of a simple path from `s` to `t`.
pub open spec fn cut_chain(g: GraphModel, s: NodeId, t: NodeId, h: GraphModel) -> bool {
    exists|steps: Seq<GraphModel>|
        {
            &&& steps.len() >= 1
            &&& disconnected(g, t, s, steps[0])
            &&& steps.last() == h
            &&& forall|i: int| 0 <= i < steps.len() - 1 ==> #[trigger] cut_step(steps[i], s, t, steps[i + 1])
        }
}

/// Takes away the link between `a` and `b`: `a` as a parent of `b` when it
/// is one, else `b` as a parent of `a`; as `disconnect_nodes` does, nothing
/// changes unless both are active.
fn unlink(g: &mut LinkedGraph, a: NodeId, b: NodeId)
    requires
        old(g)@.wf(),
        a.0 < old(g)@.len(),
        b.0 < old(g)@.len(),
    ensures
        final(g)@.wf(),
        fewer_links(old(g)@, final(g)@),
        unlinked(old(g)@, a, b, final(g)@),
        old(g)@.is_active(a) && old(g)@.is_active(b) && (old(g)@.has_parent(b, a) || old(g)@.has_parent(a, b)) ==> {
            &&& parent_total(final(g)@.nodes) < parent_total(old(g)@.nodes)
            &&& lost_link(old(g)@, final(g)@, a)
            &&& lost_link(old(g)@, final(g)@, b)
        },
{
    let ghost g0 = g@;
    let (p, c) = if g.has_parent(b, a) { (a, b) } else { (b, a) };
    g.disconnect_nodes(p, c, false);
    proof {
        if g0.has_parent(c, p) && g0.is_active(p) && g0.is_active(c) {
            lemma_unlink_effect(g0, p, c);
            assert(g0.has_parent(c, p) && !g@.has_parent(c, p));
            assert(lost_between(g0, g@, c, p));
            assert(lost_between(g0, g@, p, c));
        } else {
            lemma_fewer_refl(g0);
        }
    }
}

/// Taking `p` out of the parents of `c` loses no link but the one between them.
proof fn lemma_disconnected_lost(h: GraphModel, p: NodeId, c: NodeId, h2: GraphModel, d: NodeId)
    requires
        c.0 < h.len(),
        disconnected(h, p, c, h2),
        lost_link(h, h2, d),
    ensures
        d == p || d == c,
{
    let y = choose|y: NodeId| y.0 < h.len() && #[trigger] lost_between(h, h2, d, y);
    if h.has_parent(c, p) && h.is_active(p) && h.is_active(c) {
        if h.has_parent(d, y) && !h2.has_parent(d, y) {
            if d != c {
                assert(h2.nodes[d.0 as int] == h.nodes[d.0 as int]);
            } else {
                lemma_without_contains(h.parents(c), p, y);
            }
        } else {
            if y != c {
                assert(h2.nodes[y.0 as int] == h.nodes[y.0 as int]);
            } else {
                lemma_without_contains(h.parents(c), p, d);
            }
        }
    }
}

/// Taking away the link between `a` and `b` loses no link but that one.
proof fn lemma_unlinked_lost(h: GraphModel, a: NodeId, b: NodeId, h2: GraphModel, d: NodeId)
    requires
        a.0 < h.len(),
        b.0 < h.len(),
        unlinked(h, a, b, h2),
        lost_link(h, h2, d),
    ensures
        d == a || d == b,
{
    if h.has_parent(b, a) {
        lemma_disconnected_lost(h, a, b, h2, d);
    } else {
        lemma_disconnected_lost(h, b, a, h2, d);
    }
}

/// A link lost from `g` to `k` was lost from `g` to `h` or from `h` to `k`.
proof fn lemma_lost_split(g: GraphModel, h: GraphModel, k: GraphModel, d: NodeId)
    requires
        fewer_links(g, h),
        lost_link(g, k, d),
    ensures
        lost_link(g, h, d) || lost_link(h, k, d),
{
    let y = choose|y: NodeId| y.0 < g.len() && #[trigger] lost_between(g, k, d, y);
    if h.has_parent(d, y) && !k.has_parent(d, y) {
        assert(lost_between(h, k, d, y));
    } else if h.has_parent(y, d) && !k.has_parent(y, d) {
        assert(lost_between(h, k, d, y));
    } else {
        assert(lost_between(g, h, d, y));
    }
}

/// The active members of `c`.
pub open spec fn active_in(h: GraphModel, c: Set<NodeId>) -> Set<NodeId> {
    c.filter(|x: NodeId| h.is_active(x))
}

/// The two parts a graph falls into once `s` and `t` are apart: the active
/// nodes of the component of each (the same part twice when they are still
/// joined).
pub open spec fn split_sets(h: GraphModel, s: NodeId, t: NodeId) -> (Set<NodeId>, Set<NodeId>) {
    let cs = components_spec(h, seq![s, t]);
    if cs.len() >= 2 {
        (active_in(h, cs[0]), active_in(h, cs[1]))
    } else {
        (active_in(h, cs[0]), active_in(h, cs[0]))
    }
}

/// `r` lists, each node once, the two sets `p`.
pub open spec fn lists_pair(r: Seq<Vec<NodeId>>, p: (Set<NodeId>, Set<NodeId>)) -> bool {
    &&& r.len() == 2
    &&& r[0]@.no_duplicates()
    &&& r[1]@.no_duplicates()
    &&& forall|y: NodeId| r[0]@.contains(y) <==> p.0.contains(y)
    &&& forall|y: NodeId| r[1]@.contains(y) <==> p.1.contains(y)
}

/// `g` split at the link from `s` to its parent `t` into `h`: that link and
/// then the first link of a simple path from `s` to `t` were taken away, step
/// by step, until no simple path joins `s` and `t`; `s` no longer lists an
/// active `t` as a parent, `subs` lists the two parts, and `div` lists, once
/// each, `s`, `t` and exactly the other nodes that lost a link.
pub open spec fn split_ok(
    g: GraphModel,
    s: NodeId,
    t: NodeId,
    h: GraphModel,
    subs: Seq<Vec<NodeId>>,
    div: Seq<NodeId>,
) -> bool {
    &&& fewer_links(g, h)
    &&& cut_chain(g, s, t, h)
    &&& h.is_active(t) ==> !h.has_parent(s, t)
    &&& all_simple_paths(h, s, t).len() == 0
    &&& lists_pair(subs, split_sets(h, s, t))
    &&& div.no_duplicates()
    &&& div.contains(s)
    &&& div.contains(t)
    &&& forall|k: int| 0 <= k < div.len() ==> (#[trigger] div[k]) == s || div[k] == t || lost_link(g, h, div[k])
    &&& forall|d: NodeId| #[trigger] lost_link(g, h, d) ==> div.contains(d)
}

/// The simple paths from `source` to `target` as edge lists, shortest first.
fn sorted_simple_paths(g: &LinkedGraph, source: NodeId, target: NodeId) -> (r: (Vec<Vec<(NodeId, NodeId)>>, Ghost<Seq<int>>))
    requires
        g@.wf(),
        source.0 < g@.len(),
    ensures
        r.0@.len() == all_simple_paths(g@, source, target).len(),
        forall|k: int| 0 <= k < r.0@.len() ==> path_ok(g@, source, #[trigger] r.0@[k]@),
        r.1@.len() == r.0@.len(),
        forall|k: int|
            0 <= k < r.0@.len() ==> 0 <= #[trigger] r.1@[k] < all_simple_paths(g@, source, target).len() && r.0@[k]@
                == path_edges(all_simple_paths(g@, source, target)[r.1@[k]]),
{
    let paths = get_all_simple_paths(g, source, target);
    let ghost ps = paths@;
    let (r, Ghost(idx)) = sort_paths_by_len(paths);
    proof {
        assert forall|k: int| 0 <= k < r@.len() implies 0 <= #[trigger] idx[k] < all_simple_paths(g@, source, target).len()
            && r@[k]@ == path_edges(all_simple_paths(g@, source, target)[idx[k]]) by {
            assert(ps[idx[k]]@ == path_edges(all_simple_paths(g@, source, target)[idx[k]]));
        }
        assert forall|k: int| 0 <= k < r@.len() implies path_ok(g@, source, #[trigger] r@[k]@) by {
            assert(0 <= idx[k] < all_simple_paths(g@, source, target).len());
            lemma_simple_path_start(g@, source, target, idx[k]);
        }
    }
    (r, Ghost(idx))
}

/// After adding `x` to `v` unless it is there, `x` and all that `v` held are there.
proof fn lemma_push_new_keeps(v: Seq<NodeId>, x: NodeId, w: Seq<NodeId>, y: NodeId)
    requires
        w == if v.contains(x) {
            v
        } else {
            v.push(x)
        },
        v.contains(y) || y == x,
    ensures
        w.contains(y),
{
    if v.contains(y) {
        let q = choose|q: int| 0 <= q < v.len() && v[q] == y;
        assert(w[q] == y);
    } else if !v.contains(x) {
        assert(w[v.len() as int] == x);
    }
}

/// Adds `x` to `v` unless `v` holds it.
fn push_new(v: &mut Vec<NodeId>, x: NodeId)
    ensures
        final(v)@ == if old(v)@.contains(x) {
            old(v)@
        } else {
            old(v)@.push(x)
        },
{
    if !crate::dag::linked_graph::vec_contains(v, x) {
        v.push(x);
    }
}

/// The members of `v` that are active in `g`, in order.
fn active_members(g: &LinkedGraph, v: &Vec<NodeId>) -> (r: Vec<NodeId>)
    requires
        v@.no_duplicates(),
    ensures
        r@.no_duplicates(),
        forall|y: NodeId| r@.contains(y) <==> v@.contains(y) && g@.is_active(y),
{
    let mut r: Vec<NodeId> = Vec::new();
    let mut i: usize = 0;
    while i < v.len()
        invariant
            i <= v@.len(),
            v@.no_duplicates(),
            r@.no_duplicates(),
            forall|y: NodeId| r@.contains(y) <==> v@.take(i as int).contains(y) && g@.is_active(y),
        decreases v@.len() - i,
    {
        let x = v[i];
        let ghost r0 = r@;
        if g.contains(x) {
            proof {
                assert(!v@.take(i as int).contains(x)) by {
                    if v@.take(i as int).contains(x) {
                        let q = choose|q: int| 0 <= q < i && v@.take(i as int)[q] == x;
                        assert(v@[q] == v@[i as int]);
                    }
                }
            }
            r.push(x);
        }
        proof {
            assert(v@.take(i + 1) =~= v@.take(i as int).push(x));
            assert forall|y: NodeId| r@.contains(y) <==> v@.take(i + 1).contains(y) && g@.is_active(y) by {
                if r@.contains(y) && !r0.contains(y) {
                    let q = choose|q: int| 0 <= q < r@.len() && r@[q] == y;
                    if q < r0.len() {
                        assert(r0[q] == y);
                    }
                    assert(q == r0.len());
                    assert(y == x);
                    assert(v@.take(i + 1)[i as int] == x);
                }
                if r0.contains(y) {
                    let q = choose|q: int| 0 <= q < r0.len() && r0[q] == y;
                    assert(r@[q] == y);
                }
                if v@.take(i + 1).contains(y) && !v@.take(i as int).contains(y) {
                    assert(y == x);
                    if g@.is_active(y) {
                        assert(r@[r0.len() as int] == y);
                    }
                }
                if v@.take(i as int).contains(y) {
                    let q = choose|q: int| 0 <= q < i && v@.take(i as int)[q] == y;
                    assert(v@.take(i + 1)[q] == y);
                }
            }
        }
        i = i + 1;
    }
    proof {
        assert(v@.take(v@.len() as int) =~= v@);
    }
    r
}

/// Splits `graph` in two at a random link: the link from a random edge's
/// child to its parent is taken away, then, while a simple path still joins
/// the two, the first link of a path picked at random (the paths sorted by
/// length) is taken away too. Returns the two parts (see [`split_sets`]) and
/// the division points: the two ends of the first link and of every link
/// taken away. A graph without edges is left as it is, and its active nodes
/// are both parts and all division points.
pub fn get_subgraphs(graph: &mut LinkedGraph, rng: &mut GeneticRng) -> (r: (Vec<Vec<NodeId>>, Vec<NodeId>))
    requires
        old(graph)@.wf(),
    ensures
        final(graph)@.wf(),
        old(graph)@.edges().len() == 0 ==> {
            &&& final(graph)@ == old(graph)@
            &&& r.0@.len() == 2
            &&& r.0@[0]@ == old(graph)@.order
            &&& r.0@[1]@ == old(graph)@.order
            &&& r.1@ == old(graph)@.order
        },
        old(graph)@.edges().len() > 0 ==> exists|k: int|
            0 <= k < old(graph)@.edges().len() && split_ok(
                old(graph)@,
                (#[trigger] old(graph)@.edges()[k]).1,
                old(graph)@.edges()[k].0,
                final(graph)@,
                r.0@,
                r.1@,
            ),
{
    let ghost g0 = graph@;
    let edges = graph.get_edges();
    if edges.len() == 0 {
        let nodes = graph.nodes();
        let mut subs: Vec<Vec<NodeId>> = Vec::new();
        subs.push(graph.nodes());
        subs.push(graph.nodes());
        return (subs, nodes);
    }
    let k = rng.random_index(edges.len());
    let (target, source) = edges[k];
    proof {
        lemma_edges_upto_child(g0, g0.order.len() as int, k as int);
    }
    graph.disconnect_nodes(target, source, false);
    let ghost mut steps: Seq<GraphModel> = seq![graph@];
    proof {
        if g0.is_active(target) {
            lemma_unlink_effect(g0, target, source);
        } else {
            lemma_fewer_refl(g0);
        }
        assert(disconnected(g0, target, source, steps[0]));
    }
    let mut div: Vec<NodeId> = Vec::new();
    div.push(source);
    push_new(&mut div, target);
    proof {
        assert(div@.contains(source)) by {
            assert(div@[0] == source);
        }
        assert(div@.contains(target)) by {
            if !seq![source].contains(target) {
                assert(div@[1] == target);
            }
        }
        assert forall|d: NodeId| #[trigger] lost_link(g0, graph@, d) implies div@.contains(d) by {
            lemma_disconnected_lost(g0, target, source, graph@, d);
        }
    }
    let (mut paths, Ghost(mut pidx)) = sorted_simple_paths(graph, source, target);
    while paths.len() > 0
        invariant
            g0.wf(),
            graph@.wf(),
            graph@.len() == g0.len(),
            fewer_links(g0, graph@),
            source.0 < g0.len(),
            target.0 < g0.len(),
            graph@.is_active(source),
            g0.is_active(target) ==> !graph@.has_parent(source, target),
            paths@.len() == all_simple_paths(graph@, source, target).len(),
            forall|q: int| 0 <= q < paths@.len() ==> path_ok(graph@, source, #[trigger] paths@[q]@),
            div@.no_duplicates(),
            div@.contains(source),
            div@.contains(target),
            forall|q: int| 0 <= q < div@.len() ==> (#[trigger] div@[q]) == source || div@[q] == target || lost_link(
                g0,
                graph@,
                div@[q],
            ),
            forall|d: NodeId| #[trigger] lost_link(g0, graph@, d) ==> div@.contains(d),
            pidx.len() == paths@.len(),
            forall|q: int|
                0 <= q < paths@.len() ==> 0 <= #[trigger] pidx[q] < all_simple_paths(graph@, source, target).len() && paths@[q]@
                    == path_edges(all_simple_paths(graph@, source, target)[pidx[q]]),
            steps.len() >= 1,
            disconnected(g0, target, source, steps[0]),
            steps.last() == graph@,
            forall|q: int| 0 <= q < steps.len() - 1 ==> #[trigger] cut_step(steps[q], source, target, steps[q + 1]),
        decreases parent_total(graph@.nodes),
    {
        let i = rng.random_index(paths.len());
        proof {
            assert(path_ok(graph@, source, paths@[i as int]@));
        }
        let (a, b) = paths[i][0];
        let ghost h0 = graph@;
        unlink(graph, a, b);
        proof {
            let j = pidx[i as int];
            assert(0 <= j < all_simple_paths(h0, source, target).len());
            assert(path_edges(all_simple_paths(h0, source, target)[j])[0] == (a, b));
            assert(cut_step(h0, source, target, graph@));
            let old_steps = steps;
            steps = steps.push(graph@);
            assert forall|q: int| 0 <= q < steps.len() - 1 implies #[trigger] cut_step(steps[q], source, target, steps[q + 1]) by {
                if q < old_steps.len() - 1 {
                    assert(steps[q] == old_steps[q] && steps[q + 1] == old_steps[q + 1]);
                } else {
                    assert(steps[q] == h0);
                }
            }
            lemma_fewer_trans(g0, h0, graph@);
            assert(a == source);
            if g0.is_active(target) {
                if graph@.has_parent(source, target) {
                    assert(h0.has_parent(source, target));
                }
            }
        }
        let ghost d0 = div@;
        push_new(&mut div, a);
        let ghost d1 = div@;
        push_new(&mut div, b);
        proof {
            assert forall|q: int| 0 <= q < div@.len() implies (#[trigger] div@[q]) == source || div@[q] == target || lost_link(
                g0,
                graph@,
                div@[q],
            ) by {
                let y = div@[q];
                if q < d0.len() {
                    assert(d0[q] == y);
                    if y != source && y != target {
                        lemma_lost_persists(g0, h0, graph@, y);
                    }
                } else if y != source {
                    assert(y == b);
                    assert(lost_link(h0, graph@, b));
                    let z = choose|z: NodeId| z.0 < h0.len() && #[trigger] lost_between(h0, graph@, b, z);
                    if h0.has_parent(b, z) && !graph@.has_parent(b, z) {
                        assert(g0.has_parent(b, z));
                    } else {
                        assert(g0.has_parent(z, b));
                    }
                    assert(lost_between(g0, graph@, b, z));
                }
            }
            assert(div@.no_duplicates());
            assert(div@.contains(source)) by {
                let q = choose|q: int| 0 <= q < d0.len() && d0[q] == source;
                assert(div@[q] == source);
            }
            assert(div@.contains(target)) by {
                let q = choose|q: int| 0 <= q < d0.len() && d0[q] == target;
                assert(div@[q] == target);
            }
            assert forall|d: NodeId| #[trigger] lost_link(g0, graph@, d) implies div@.contains(d) by {
                lemma_lost_split(g0, h0, graph@, d);
                if lost_link(g0, h0, d) {
                    let q = choose|q: int| 0 <= q < d0.len() && d0[q] == d;
                    assert(div@[q] == d);
                } else {
                    lemma_unlinked_lost(h0, a, b, graph@, d);
                    if d == a {
                        lemma_push_new_keeps(d0, a, d1, d);
                    }
                    lemma_push_new_keeps(d1, b, div@, d);
                }
            }
        }
        let (np, Ghost(ni)) = sorted_simple_paths(graph, source, target);
        paths = np;
        proof {
            pidx = ni;
        }
    }
    let mut ends: Vec<NodeId> = Vec::new();
    ends.push(source);
    ends.push(target);
    proof {
        assert(ends@ =~= seq![source, target]);
    }
    let comps = get_connected_components(graph, Some(ends.as_slice()));
    let ghost cs = components_spec(graph@, seq![source, target]);
    proof {
        assert(cs.len() >= 1) by {
            assert(seq![source, target].drop_last() =~= seq![source]);
            assert(seq![source].drop_last() =~= Seq::<NodeId>::empty());
        }
    }
    let first = active_members(graph, &comps[0]);
    let mut subs: Vec<Vec<NodeId>> = Vec::new();
    if comps.len() >= 2 {
        let second = active_members(graph, &comps[1]);
        subs.push(first);
        subs.push(second);
    } else {
        let again = active_members(graph, &comps[0]);
        subs.push(first);
        subs.push(again);
    }
    proof {
        let p = split_sets(graph@, source, target);
        assert forall|y: NodeId| subs@[0]@.contains(y) <==> p.0.contains(y) by {
            assert(comps@[0]@.contains(y) <==> cs[0].contains(y));
        }
        assert forall|y: NodeId| subs@[1]@.contains(y) <==> p.1.contains(y) by {
            assert(comps@[0]@.contains(y) <==> cs[0].contains(y));
            if comps@.len() >= 2 {
                assert(comps@[1]@.contains(y) <==> cs[1].contains(y));
            }
        }
        assert(cut_chain(g0, source, target, graph@));
        assert(split_ok(g0, source, target, graph@, subs@, div@));
        assert(g0.edges()[k as int] == (target, source));
    }
    (subs, div)
}

/// `y` moved up by `d`.
pub open spec fn shift_id(y: NodeId, d: nat) -> NodeId {
    NodeId((y.0 + d) as usize)
}

/// `g` with `p` made a parent of `c` unless it is one already.
pub open spec fn connect_step(g: GraphModel, e: (NodeId, NodeId)) -> GraphModel {
    if g.has_parent(e.1, e.0) {
        g
    } else {
        g.with_parents(e.1, g.parents(e.1).push(e.0))
    }
}

/// `g` after connecting the pairs `(parent, child)` of `es` in order.
pub open spec fn connects(g: GraphModel, es: Seq<(NodeId, NodeId)>) -> GraphModel
    decreases es.len(),
{
    if es.len() == 0 {
        g
    } else {
        connect_step(connects(g, es.drop_last()), es.last())
    }
}

/// The members of `sub` that `div` lists, in order.
pub open spec fn points(sub: Seq<NodeId>, div: Seq<NodeId>) -> Seq<NodeId> {
    sub.filter(|x: NodeId| div.contains(x))
}

/// Positions `a` and `b` pick distinct entries of `fp` and `sp`, and each
/// pair of `es` joins the picked entries, one way or the other.
pub open spec fn picks_ok(fp: Seq<NodeId>, sp: Seq<NodeId>, es: Seq<(NodeId, NodeId)>, a: Seq<int>, b: Seq<int>) -> bool {
    &&& a.len() == es.len()
    &&& b.len() == es.len()
    &&& a.no_duplicates()
    &&& b.no_duplicates()
    &&& forall|k: int| 0 <= k < a.len() ==> 0 <= #[trigger] a[k] < fp.len()
    &&& forall|k: int| 0 <= k < b.len() ==> 0 <= #[trigger] b[k] < sp.len()
    &&& forall|k: int|
        0 <= k < es.len() ==> #[trigger] es[k] == (fp[a[k]], sp[b[k]]) || es[k] == (sp[b[k]], fp[a[k]])
}

/// What [`connect_subgraphs`] gives: the arenas of `g1` and `g2` stacked, the
/// nodes of `sub1` and (moved up) of `sub2` added with their ancestors, and
/// then as many links as the smaller list of division points holds, each
/// joining a division point of the first part with one of the second, every
/// point used once.
pub open spec fn joined_ok(
    g1: GraphModel,
    sub1: Seq<NodeId>,
    div1: Seq<NodeId>,
    g2: GraphModel,
    sub2: Seq<NodeId>,
    div2: Seq<NodeId>,
    r: GraphModel,
) -> bool {
    let ids = sub1 + sub2.map_values(|y: NodeId| shift_id(y, g1.len()));
    let fp = points(sub1, div1);
    let sp = points(sub2, div2).map_values(|y: NodeId| shift_id(y, g1.len()));
    let n = if fp.len() < sp.len() {
        fp.len()
    } else {
        sp.len()
    };
    exists|b: GraphModel, es: Seq<(NodeId, NodeId)>, ia: Seq<int>, ib: Seq<int>|
        #![trigger adds_result(stacked(g1, g2), ids, b), connects(b, es), picks_ok(fp, sp, es, ia, ib)]
        adds_result(stacked(g1, g2), ids, b) && es.len() == n && picks_ok(fp, sp, es, ia, ib) && r == connects(b, es)
}

/// The members of `sub` that `div` lists, in order, each moved up by `d`.
fn points_exec(sub: &Vec<NodeId>, div: &Vec<NodeId>, d: usize) -> (r: Vec<NodeId>)
    requires
        forall|k: int| 0 <= k < sub@.len() ==> (#[trigger] sub@[k]).0 + d <= usize::MAX,
    ensures
        r@ == points(sub@, div@).map_values(|y: NodeId| shift_id(y, d as nat)),
{
    let ghost pred = |x: NodeId| div@.contains(x);
    let mut r: Vec<NodeId> = Vec::new();
    let mut i: usize = 0;
    while i < sub.len()
        invariant
            forall|k: int| 0 <= k < sub@.len() ==> (#[trigger] sub@[k]).0 + d <= usize::MAX,
            pred == (|x: NodeId| div@.contains(x)),
            i <= sub@.len(),
            r@ == sub@.take(i as int).filter(pred).map_values(|y: NodeId| shift_id(y, d as nat)),
        decreases sub@.len() - i,
    {
        let x = sub[i];
        proof {
            reveal(Seq::filter);
            assert(sub@.take(i + 1).drop_last() =~= sub@.take(i as int));
            assert(sub@.take(i + 1).last() == x);
        }
        if crate::dag::linked_graph::vec_contains(div, x) {
            r.push(NodeId(x.0 + d));
            proof {
                assert(r@ =~= sub@.take(i + 1).filter(pred).map_values(|y: NodeId| shift_id(y, d as nat)));
            }
        }
        i = i + 1;
    }
    proof {
        assert(sub@.take(sub@.len() as int) =~= sub@);
    }
    r
}

/// Joins a part of one graph with a part of another (see [`joined_ok`]):
/// both arenas are stacked into a new graph, the nodes of `sub1` and of
/// `sub2` are added with their ancestors, and then, as many times as the
/// smaller list of division points is long, a division point of each part
/// is taken at random from what is left and the two are linked, the one of
/// the first part as the parent when a fair coin says so and as the child
/// otherwise.
pub fn connect_subgraphs(
    g1: &LinkedGraph,
    sub1: &Vec<NodeId>,
    div1: &Vec<NodeId>,
    g2: &LinkedGraph,
    sub2: &Vec<NodeId>,
    div2: &Vec<NodeId>,
    rng: &mut GeneticRng,
) -> (r: LinkedGraph)
    requires
        g1@.wf(),
        g2@.wf(),
        g1@.len() + g2@.len() <= usize::MAX,
        forall|k: int| 0 <= k < sub1@.len() ==> (#[trigger] sub1@[k]).0 < g1@.len(),
        forall|k: int| 0 <= k < sub2@.len() ==> (#[trigger] sub2@[k]).0 < g2@.len(),
    ensures
        r@.wf(),
        joined_ok(g1@, sub1@, div1@, g2@, sub2@, div2@, r@),
{
    let n1 = g1.arena_len();
    let ghost total = g1@.len() + g2@.len();
    let mut r = LinkedGraph::stack(g1, g2);
    let ghost base = r@;
    let mut ids: Vec<NodeId> = Vec::new();
    let mut q: usize = 0;
    while q < sub1.len()
        invariant
            forall|k: int| 0 <= k < sub1@.len() ==> (#[trigger] sub1@[k]).0 < g1@.len(),
            q <= sub1@.len(),
            ids@ == sub1@.take(q as int),
        decreases sub1@.len() - q,
    {
        ids.push(sub1[q]);
        proof {
            assert(sub1@.take(q + 1) =~= sub1@.take(q as int).push(sub1@[q as int]));
        }
        q = q + 1;
    }
    let mut q: usize = 0;
    while q < sub2.len()
        invariant
            n1 == g1@.len(),
            g1@.len() + g2@.len() <= usize::MAX,
            forall|k: int| 0 <= k < sub2@.len() ==> (#[trigger] sub2@[k]).0 < g2@.len(),
            q <= sub2@.len(),
            ids@ == sub1@ + sub2@.take(q as int).map_values(|y: NodeId| shift_id(y, n1 as nat)),
        decreases sub2@.len() - q,
    {
        ids.push(NodeId(sub2[q].0 + n1));
        proof {
            assert(sub2@.take(q + 1) =~= sub2@.take(q as int).push(sub2@[q as int]));
            assert(ids@ =~= sub1@ + sub2@.take(q + 1).map_values(|y: NodeId| shift_id(y, n1 as nat)));
        }
        q = q + 1;
    }
    proof {
        assert(sub1@.take(sub1@.len() as int) =~= sub1@);
        assert(sub2@.take(sub2@.len() as int) =~= sub2@);
    }
    let mut k: usize = 0;
    while k < ids.len()
        invariant
            r@.wf(),
            r@.len() == g1@.len() + g2@.len(),
            forall|t: int| 0 <= t < ids@.len() ==> (#[trigger] ids@[t]).0 < g1@.len() + g2@.len(),
            k <= ids@.len(),
            adds_result(base, ids@.take(k as int), r@),
        decreases ids@.len() - k,
    {
        let ghost mid = r@;
        r.add_node(ids[k]);
        proof {
            assert(ids@.take(k + 1).drop_last() =~= ids@.take(k as int));
            assert(ids@.take(k + 1).last() == ids@[k as int]);
            assert(mid.add_node_result(ids@.take(k + 1).last(), r@));
        }
        k = k + 1;
    }
    proof {
        assert(ids@.take(ids@.len() as int) =~= ids@);
    }
    let ghost b = r@;
    let mut fp = points_exec(sub1, div1, 0);
    let mut sp = points_exec(sub2, div2, n1);
    let ghost fp0 = fp@;
    let ghost sp0 = sp@;
    proof {
        assert(fp0 =~= points(sub1@, div1@)) by {
            assert forall|t: int| 0 <= t < fp0.len() implies fp0[t] == points(sub1@, div1@)[t] by {
                assert(NodeId(points(sub1@, div1@)[t].0) == points(sub1@, div1@)[t]);
            }
        }
    }
    proof {
        let f1 = points(sub1@, div1@);
        let f2 = points(sub2@, div2@);
        assert forall|t: int| 0 <= t < fp0.len() implies (#[trigger] fp0[t]).0 < g1@.len() + g2@.len() by {
            assert(f1.contains(f1[t]));
            sub1@.lemma_filter_contains_rev(|x: NodeId| div1@.contains(x), f1[t]);
        }
        assert forall|t: int| 0 <= t < sp0.len() implies (#[trigger] sp0[t]).0 < g1@.len() + g2@.len() by {
            assert(f2.contains(f2[t]));
            sub2@.lemma_filter_contains_rev(|x: NodeId| div2@.contains(x), f2[t]);
        }
    }
    let n = if fp.len() < sp.len() { fp.len() } else { sp.len() };
    let ghost mut es: Seq<(NodeId, NodeId)> = Seq::empty();
    let ghost mut ia: Seq<int> = Seq::empty();
    let ghost mut ib: Seq<int> = Seq::empty();
    let ghost mut rem1: Seq<int> = Seq::new(fp0.len(), |t: int| t);
    let ghost mut rem2: Seq<int> = Seq::new(sp0.len(), |t: int| t);
    let mut c: usize = 0;
    while c < n
        invariant
            r@.wf(),
            r@.len() == g1@.len() + g2@.len(),
            n <= fp0.len(),
            n <= sp0.len(),
            c <= n,
            fp@.len() == fp0.len() - c,
            sp@.len() == sp0.len() - c,
            rem1.len() == fp@.len(),
            rem2.len() == sp@.len(),
            forall|t: int| 0 <= t < rem1.len() ==> 0 <= #[trigger] rem1[t] < fp0.len() && fp@[t] == fp0[rem1[t]],
            forall|t: int| 0 <= t < rem2.len() ==> 0 <= #[trigger] rem2[t] < sp0.len() && sp@[t] == sp0[rem2[t]],
            rem1.no_duplicates(),
            rem2.no_duplicates(),
            forall|x: int, y: int| 0 <= x < ia.len() && 0 <= y < rem1.len() ==> ia[x] != rem1[y],
            forall|x: int, y: int| 0 <= x < ib.len() && 0 <= y < rem2.len() ==> ib[x] != rem2[y],
            es.len() == c,
            picks_ok(fp0, sp0, es, ia, ib),
            forall|t: int| 0 <= t < fp0.len() ==> (#[trigger] fp0[t]).0 < g1@.len() + g2@.len(),
            forall|t: int| 0 <= t < sp0.len() ==> (#[trigger] sp0[t]).0 < g1@.len() + g2@.len(),
            r@ == connects(b, es),
        decreases n - c,
    {
        let i1 = rng.gen_range(0, fp.len());
        let i2 = rng.gen_range(0, sp.len());
        let x = fp.remove(i1);
        let y = sp.remove(i2);
        let ghost ex = rem1[i1 as int];
        let ghost ey = rem2[i2 as int];
        let heads = rng.gen_ratio(1, 2);
        let ghost g_before = r@;
        let ghost e: (NodeId, NodeId) = if heads { (x, y) } else { (y, x) };
        if heads {
            r.connect_nodes(x, y);
        } else {
            r.connect_nodes(y, x);
        }
        proof {
            let old1 = rem1;
            let old2 = rem2;
            let oia = ia;
            let oib = ib;
            let oes = es;
            rem1 = rem1.remove(i1 as int);
            rem2 = rem2.remove(i2 as int);
            ia = ia.push(ex);
            ib = ib.push(ey);
            es = es.push(e);
            assert(es.drop_last() =~= oes);
            assert(r@ == connects(b, es));
            assert forall|t: int| 0 <= t < rem1.len() implies 0 <= #[trigger] rem1[t] < fp0.len() && fp@[t] == fp0[rem1[t]] by {
                if t < i1 {
                    assert(rem1[t] == old1[t]);
                } else {
                    assert(rem1[t] == old1[t + 1]);
                }
            }
            assert forall|t: int| 0 <= t < rem2.len() implies 0 <= #[trigger] rem2[t] < sp0.len() && sp@[t] == sp0[rem2[t]] by {
                if t < i2 {
                    assert(rem2[t] == old2[t]);
                } else {
                    assert(rem2[t] == old2[t + 1]);
                }
            }
            assert(rem1.no_duplicates()) by {
                assert forall|u: int, v: int| 0 <= u < v < rem1.len() implies rem1[u] != rem1[v] by {
                    let uu = if u < i1 { u } else { u + 1 };
                    let vv = if v < i1 { v } else { v + 1 };
                    assert(rem1[u] == old1[uu] && rem1[v] == old1[vv]);
                }
            }
            assert(rem2.no_duplicates()) by {
                assert forall|u: int, v: int| 0 <= u < v < rem2.len() implies rem2[u] != rem2[v] by {
                    let uu = if u < i2 { u } else { u + 1 };
                    let vv = if v < i2 { v } else { v + 1 };
                    assert(rem2[u] == old2[uu] && rem2[v] == old2[vv]);
                }
            }
            assert forall|u: int, v: int| 0 <= u < ia.len() && 0 <= v < rem1.len() implies ia[u] != rem1[v] by {
                let vv = if v < i1 { v } else { v + 1 };
                assert(rem1[v] == old1[vv]);
                if u == oia.len() {
                    assert(ia[u] == old1[i1 as int]);
                } else {
                    assert(ia[u] == oia[u]);
                }
            }
            assert forall|u: int, v: int| 0 <= u < ib.len() && 0 <= v < rem2.len() implies ib[u] != rem2[v] by {
                let vv = if v < i2 { v } else { v + 1 };
                assert(rem2[v] == old2[vv]);
                if u == oib.len() {
                    assert(ib[u] == old2[i2 as int]);
                } else {
                    assert(ib[u] == oib[u]);
                }
            }
            assert(ia.no_duplicates()) by {
                assert forall|u: int, v: int| 0 <= u < v < ia.len() implies ia[u] != ia[v] by {
                    if v == oia.len() {
                        assert(ia[u] == oia[u]);
                    }
                }
            }
            assert(ib.no_duplicates()) by {
                assert forall|u: int, v: int| 0 <= u < v < ib.len() implies ib[u] != ib[v] by {
                    if v == oib.len() {
                        assert(ib[u] == oib[u]);
                    }
                }
            }
            assert(x == fp0[ex] && y == sp0[ey]);
            assert forall|t: int| 0 <= t < es.len() implies #[trigger] es[t] == (fp0[ia[t]], sp0[ib[t]]) || es[t] == (
                sp0[ib[t]],
                fp0[ia[t]],
            ) by {
                if t < oes.len() {
                    assert(es[t] == oes[t] && ia[t] == oia[t] && ib[t] == oib[t]);
                }
            }
            assert forall|t: int| 0 <= t < ia.len() implies 0 <= #[trigger] ia[t] < fp0.len() by {
                if t < oia.len() {
                    assert(ia[t] == oia[t]);
                }
            }
            assert forall|t: int| 0 <= t < ib.len() implies 0 <= #[trigger] ib[t] < sp0.len() by {
                if t < oib.len() {
                    assert(ib[t] == oib[t]);
                }
            }
        }
        c = c + 1;
    }
    proof {
        let ids_s = sub1@ + sub2@.map_values(|y: NodeId| shift_id(y, g1@.len()));
        assert(ids@ == ids_s);
        assert(adds_result(stacked(g1@, g2@), ids_s, b));
        assert(picks_ok(fp0, sp0, es, ia, ib));
        assert(r@ == connects(b, es));
    }
    r
}

/// What [`get_subgraphs`] may give for `g`: `g` itself with its active nodes
/// as both parts and as the division points when it has no edge, else a
/// split at the link of one of its edges.
pub open spec fn split_any(g: GraphModel, h: GraphModel, subs: Seq<Vec<NodeId>>, div: Seq<NodeId>) -> bool {
    if g.edges().len() == 0 {
        &&& h == g
        &&& subs.len() == 2
        &&& subs[0]@ == g.order
        &&& subs[1]@ == g.order
        &&& div == g.order
    } else {
        exists|k: int| 0 <= k < g.edges().len() && split_ok(g, (#[trigger] g.edges()[k]).1, g.edges()[k].0, h, subs, div)
    }
}

/// The parts listed by a split are active nodes of the split graph.
proof fn lemma_split_valid(g: GraphModel, h: GraphModel, subs: Seq<Vec<NodeId>>, div: Seq<NodeId>)
    requires
        g.wf(),
        h.wf(),
        split_any(g, h, subs, div),
    ensures
        subs.len() == 2,
        h.len() == g.len(),
        forall|k: int| 0 <= k < subs[0]@.len() ==> (#[trigger] subs[0]@[k]).0 < h.len(),
        forall|k: int| 0 <= k < subs[1]@.len() ==> (#[trigger] subs[1]@[k]).0 < h.len(),
{
    if g.edges().len() == 0 {
        assert forall|k: int| 0 <= k < subs[0]@.len() implies (#[trigger] subs[0]@[k]).0 < h.len() by {
            assert(g.order[k].0 < g.len());
        }
        assert forall|k: int| 0 <= k < subs[1]@.len() implies (#[trigger] subs[1]@[k]).0 < h.len() by {
            assert(g.order[k].0 < g.len());
        }
    } else {
        let k = choose|k: int| 0 <= k < g.edges().len() && split_ok(g, (#[trigger] g.edges()[k]).1, g.edges()[k].0, h, subs, div);
        let st = split_sets(h, g.edges()[k].1, g.edges()[k].0);
        assert forall|t: int| 0 <= t < subs[0]@.len() implies (#[trigger] subs[0]@[t]).0 < h.len() by {
            let y = subs[0]@[t];
            assert(subs[0]@.contains(y));
            assert(st.0.contains(y));
            let i = choose|i: int| 0 <= i < h.order.len() && h.order[i] == y;
            assert(h.order[i].0 < h.len());
        }
        assert forall|t: int| 0 <= t < subs[1]@.len() implies (#[trigger] subs[1]@[t]).0 < h.len() by {
            let y = subs[1]@[t];
            assert(subs[1]@.contains(y));
            assert(st.1.contains(y));
            let i = choose|i: int| 0 <= i < h.order.len() && h.order[i] == y;
            assert(h.order[i].0 < h.len());
        }
    }
}

/// What [`subgraph_crossover`] may give: each graph split as
/// [`get_subgraphs`] may split it, the first part of the first joined with
/// the second part of the second into the new first graph, and the second
/// part of the first with the first part of the second into the new second
/// graph (see [`joined_ok`]).
pub open spec fn subgraph_outcome(g1: GraphModel, g2: GraphModel, f1: GraphModel, f2: GraphModel) -> bool {
    exists|h1: GraphModel, s1: Seq<Vec<NodeId>>, d1: Seq<NodeId>, h2: GraphModel, s2: Seq<Vec<NodeId>>, d2: Seq<NodeId>|
        #![trigger split_any(g1, h1, s1, d1), split_any(g2, h2, s2, d2)]
        split_any(g1, h1, s1, d1) && split_any(g2, h2, s2, d2) && joined_ok(h1, s1[0]@, d1, h2, s2[1]@, d2, f1)
            && joined_ok(h1, s1[1]@, d1, h2, s2[0]@, d2, f2)
}

/// Exchanges parts between the graphs: each graph is split in two as
/// [`get_subgraphs`] does, then the first graph becomes the first part of
/// itself joined with the second part of the other, and the second graph
/// the second part of the first joined with the first part of itself, as
/// [`connect_subgraphs`] does.
pub fn subgraph_crossover(graph_first: &mut LinkedGraph, graph_second: &mut LinkedGraph, rng: &mut GeneticRng)
    requires
        old(graph_first)@.wf(),
        old(graph_second)@.wf(),
        old(graph_first)@.len() + old(graph_second)@.len() <= usize::MAX,
    ensures
        final(graph_first)@.wf(),
        final(graph_second)@.wf(),
        subgraph_outcome(old(graph_first)@, old(graph_second)@, final(graph_first)@, final(graph_second)@),
{
    let ghost g1 = graph_first@;
    let ghost g2 = graph_second@;
    let (first_subs, first_div) = get_subgraphs(graph_first, rng);
    let (second_subs, second_div) = get_subgraphs(graph_second, rng);
    proof {
        assert(split_any(g1, graph_first@, first_subs@, first_div@));
        assert(split_any(g2, graph_second@, second_subs@, second_div@));
        lemma_split_valid(g1, graph_first@, first_subs@, first_div@);
        lemma_split_valid(g2, graph_second@, second_subs@, second_div@);
    }
    let new_first = connect_subgraphs(graph_first, &first_subs[0], &first_div, graph_second, &second_subs[1], &second_div, rng);
    let new_second = connect_subgraphs(graph_first, &first_subs[1], &first_div, graph_second, &second_subs[0], &second_div, rng);
    let ghost h1 = graph_first@;
    let ghost h2 = graph_second@;
    *graph_first = new_first;
    *graph_second = new_second;
    proof {
        assert(split_any(g1, h1, first_subs@, first_div@));
        assert(split_any(g2, h2, second_subs@, second_div@));
    }
}

} // verus!
