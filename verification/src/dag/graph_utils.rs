use vstd::prelude::*;
use crate::dag::linked_graph::{GraphModel, LinkedGraph, lemma_nodup_bounded, lemma_preorder_list, order_ok, parents_ok, preorder_add, preorder_list};
use crate::dag::node::{CycleError, NodeId};
use crate::dag::linked_graph::{lemma_reaches_self, lemma_reaches_step, lemma_filter_contains_iff};

verus! {

impl GraphModel {
    /// `rank` places every active parent of an active node strictly below the node.
    pub open spec fn ranks_active(self, rank: spec_fn(NodeId) -> nat) -> bool {
        forall|c: NodeId, j: int|
            self.is_active(c) && 0 <= j < self.parents(c).len() && self.is_active(
                #[trigger] self.parents(c)[j],
            ) ==> rank(self.parents(c)[j]) < rank(c)
    }

    /// `x` lies on a cycle of the arena: some walk of at least one step leads from `x` back to `x`.
    pub open spec fn on_cycle(self, x: NodeId) -> bool {
        exists|s: Seq<NodeId>| #[trigger] self.is_path(s) && s.len() >= 2 && s[0] == x && s.last() == x
    }

    /// Some ancestor of `root` (or `root` itself) lies on a cycle.
    pub open spec fn cycle_above(self, root: NodeId) -> bool {
        exists|x: NodeId| self.reaches(root, x) && #[trigger] self.on_cycle(x)
    }

    /// `v` lists `root` first and then ancestors of `root`, each after one of its children.
    pub open spec fn is_hierarchy(self, root: NodeId, v: Seq<NodeId>) -> bool {
        &&& v.len() >= 1
        &&& v[0] == root
        &&& v.no_duplicates()
        &&& forall|k: int| 0 <= k < v.len() ==> self.reaches(root, #[trigger] v[k])
        &&& forall|k: int|
            0 < k < v.len() ==> exists|j: int| 0 <= j < k && self.has_parent(v[j], #[trigger] v[k])
    }

    /// Every parent of every node listed in `v` is listed in `v`.
    pub open spec fn parent_closed(self, v: Seq<NodeId>) -> bool {
        forall|k: int, j: int|
            0 <= k < v.len() && 0 <= j < self.parents(v[k]).len() ==> v.contains(
                #[trigger] self.parents(v[k])[j],
            )
    }

    /// The active nodes, with the edges between them, hold no cycle: they can be
    /// ranked so that every parent ranks below its children.
    pub open spec fn acyclic(self) -> bool {
        exists|rank: spec_fn(NodeId) -> nat| self.ranks_active(rank)
    }
}

/// Returns a vector over the arena that marks the active nodes.
pub fn active_mask(g: &LinkedGraph) -> (r: Vec<bool>)
    requires
        g@.wf(),
    ensures
        r@.len() == g@.len(),
        forall|i: int| 0 <= i < r@.len() ==> r@[i] == g@.is_active(NodeId(i as usize)),
{
    let n = g.arena_len();
    let mut r: Vec<bool> = Vec::new();
    let mut i: usize = 0;
    while i < n
        invariant
            n == g@.len(),
            i <= n,
            r@.len() == i,
            forall|k: int| 0 <= k < i ==> !r@[k],
        decreases n - i,
    {
        r.push(false);
        i = i + 1;
    }
    let order = g.nodes();
    let mut k: usize = 0;
    while k < order.len()
        invariant
            g@.wf(),
            n == g@.len(),
            order@ == g@.order,
            k <= order@.len(),
            r@.len() == n,
            forall|i: int| 0 <= i < n ==> r@[i] == g@.order.take(k as int).contains(NodeId(i as usize)),
        decreases order@.len() - k,
    {
        let x = order[k];
        proof {
            assert(g@.order[k as int].0 < g@.len());
        }
        r.set(x.0, true);
        proof {
            let t = g@.order.take(k as int);
            assert(g@.order.take(k + 1) =~= t.push(x));
            assert forall|i: int| 0 <= i < n implies r@[i] == g@.order.take(k + 1).contains(NodeId(i as usize)) by {
                if t.push(x).contains(NodeId(i as usize)) && !t.contains(NodeId(i as usize)) {
                    let j = choose|j: int| 0 <= j < t.len() + 1 && t.push(x)[j] == NodeId(i as usize);
                    if j < t.len() {
                        assert(t[j] == NodeId(i as usize));
                    }
                }
                if t.contains(NodeId(i as usize)) {
                    let j = choose|j: int| 0 <= j < t.len() && t[j] == NodeId(i as usize);
                    assert(t.push(x)[j] == NodeId(i as usize));
                }
                if i == x.0 {
                    assert(t.push(x)[t.len() as int] == x);
                }
            }
        }
        k = k + 1;
    }
    proof {
        assert(g@.order.take(g@.order.len() as int) =~= g@.order);
    }
    r
}

/// Among the listed nodes, one of least rank.
proof fn lemma_min_rank(s: Seq<NodeId>, rank: spec_fn(NodeId) -> nat) -> (m: int)
    requires
        s.len() > 0,
    ensures
        0 <= m < s.len(),
        forall|k: int| 0 <= k < s.len() ==> rank(s[m]) <= rank(#[trigger] s[k]),
    decreases s.len(),
{
    if s.len() == 1 {
        0
    } else {
        let m0 = lemma_min_rank(s.drop_last(), rank);
        assert forall|k: int| 0 <= k < s.len() - 1 implies rank(s[m0]) <= rank(#[trigger] s[k]) by {
            assert(s.drop_last()[k] == s[k]);
        }
        if rank(s.last()) < rank(s[m0]) {
            (s.len() - 1) as int
        } else {
            m0
        }
    }
}

/// True if the active nodes, with the edges between them, contain a cycle.
pub fn graph_has_cycle(g: &LinkedGraph) -> (r: bool)
    requires
        g@.wf(),
    ensures
        r == !g@.acyclic(),
{
    let n = g.arena_len();
    let active = active_mask(g);
    let order = g.nodes();
    let mut removed: Vec<bool> = Vec::new();
    let mut i: usize = 0;
    while i < n
        invariant
            n == g@.len(),
            i <= n,
            removed@.len() == i,
            forall|k: int| 0 <= k < i ==> !removed@[k],
        decreases n - i,
    {
        removed.push(false);
        i = i + 1;
    }
    proof {
        lemma_count_all_false(removed@);
    }
    // ghost ranks of the removed nodes: the step at which each left
    let ghost mut rank: Seq<nat> = Seq::new(n as nat, |i: int| 0nat);
    let mut step: usize = 0;
    loop
        invariant
            g@.wf(),
            n == g@.len(),
            order@ == g@.order,
            active@.len() == n,
            forall|i: int| 0 <= i < n ==> active@[i] == g@.is_active(NodeId(i as usize)),
            removed@.len() == n,
            rank.len() == n,
            step <= n,
            forall|i: int| 0 <= i < n && removed@[i] ==> rank[i] < step,
            forall|i: int| 0 <= i < n && removed@[i] ==> active@[i],
            forall|c: NodeId, j: int|
                c.0 < n && removed@[c.0 as int] && 0 <= j < g@.parents(c).len() && g@.is_active(
                    #[trigger] g@.parents(c)[j],
                ) ==> removed@[g@.parents(c)[j].0 as int] && rank[g@.parents(c)[j].0 as int] < rank[c.0 as int],
            removed@.filter(|b: bool| b).len() == step,
        decreases n - step,
    {
        // look for an active node whose active parents all left
        let mut found: Option<usize> = None;
        let mut k: usize = 0;
        while k < order.len() && found.is_none()
            invariant
                g@.wf(),
                n == g@.len(),
                order@ == g@.order,
                active@.len() == n,
                forall|i: int| 0 <= i < n ==> active@[i] == g@.is_active(NodeId(i as usize)),
                removed@.len() == n,
                k <= order@.len(),
                found matches Some(x) ==> {
                    &&& x < n
                    &&& active@[x as int]
                    &&& !removed@[x as int]
                    &&& forall|j: int|
                        0 <= j < g@.parents(NodeId(x)).len() && g@.is_active(
                            #[trigger] g@.parents(NodeId(x))[j],
                        ) ==> removed@[g@.parents(NodeId(x))[j].0 as int]
                },
                found is None ==> forall|q: int|
                    0 <= q < k ==> removed@[g@.order[q].0 as int] || exists|j: int|
                        0 <= j < g@.parents(g@.order[q]).len() && g@.is_active(
                            #[trigger] g@.parents(g@.order[q])[j],
                        ) && !removed@[g@.parents(g@.order[q])[j].0 as int],
            decreases order@.len() - k,
        {
            let x = order[k];
            proof {
                assert(g@.order[k as int].0 < n);
            }
            if !removed[x.0] {
                let ps = g.parents_of(x);
                let mut ready = true;
                let mut j: usize = 0;
                while j < ps.len()
                    invariant
                        g@.wf(),
                        n == g@.len(),
                        x.0 < n,
                        ps@ == g@.parents(x),
                        active@.len() == n,
                        forall|i: int| 0 <= i < n ==> active@[i] == g@.is_active(NodeId(i as usize)),
                        removed@.len() == n,
                        j <= ps@.len(),
                        ready ==> forall|t: int|
                            0 <= t < j && g@.is_active(#[trigger] g@.parents(x)[t]) ==> removed@[g@.parents(
                                x,
                            )[t].0 as int],
                        !ready ==> exists|t: int|
                            0 <= t < j && g@.is_active(#[trigger] g@.parents(x)[t]) && !removed@[g@.parents(
                                x,
                            )[t].0 as int],
                    decreases ps@.len() - j,
                {
                    let p = ps[j];
                    proof {
                        assert(g@.nodes[x.0 as int].parents[j as int].0 < n);
                    }
                    if active[p.0] && !removed[p.0] {
                        ready = false;
                    }
                    j = j + 1;
                }
                if ready {
                    found = Some(x.0);
                    proof {
                        assert(NodeId(x.0) == x);
                        assert(g@.order.contains(x));
                    }
                }
            }
            k = k + 1;
        }
        match found {
            None => {
                assert(k == order@.len());
                assert(forall|q: int|
                    0 <= q < g@.order.len() ==> removed@[g@.order[q].0 as int] || exists|j: int|
                        0 <= j < g@.parents(g@.order[q]).len() && g@.is_active(
                            #[trigger] g@.parents(g@.order[q])[j],
                        ) && !removed@[g@.parents(g@.order[q])[j].0 as int]);
                // every remaining active node keeps an active parent that did not leave
                let mut q: usize = 0;
                while q < order.len()
                    invariant
                        g@.wf(),
                        n == g@.len(),
                        order@ == g@.order,
                        removed@.len() == n,
                        q <= order@.len(),
                        forall|t: int| 0 <= t < q ==> removed@[g@.order[t].0 as int],
                        rank.len() == n,
                        forall|c: NodeId, j: int|
                            c.0 < n && removed@[c.0 as int] && 0 <= j < g@.parents(c).len() && g@.is_active(
                                #[trigger] g@.parents(c)[j],
                            ) ==> removed@[g@.parents(c)[j].0 as int] && rank[g@.parents(c)[j].0 as int]
                                < rank[c.0 as int],
                        forall|q: int|
                            0 <= q < g@.order.len() ==> removed@[g@.order[q].0 as int] || exists|j: int|
                                0 <= j < g@.parents(g@.order[q]).len() && g@.is_active(
                                    #[trigger] g@.parents(g@.order[q])[j],
                                ) && !removed@[g@.parents(g@.order[q])[j].0 as int],
                    decreases order@.len() - q,
                {
                    proof {
                        assert(g@.order[q as int].0 < n);
                    }
                    if !removed[order[q].0] {
                        proof {
                            let x0 = g@.order[q as int];
                            lemma_stuck_means_cycle(g@, removed@, x0);
                        }
                        return true;
                    }
                    q = q + 1;
                }
                proof {
                    let rk = |c: NodeId| rank[c.0 as int];
                    assert forall|c: NodeId, j: int|
                        g@.is_active(c) && 0 <= j < g@.parents(c).len() && g@.is_active(
                            #[trigger] g@.parents(c)[j],
                        ) implies rk(g@.parents(c)[j]) < rk(c) by {
                        let t = choose|t: int| 0 <= t < g@.order.len() && g@.order[t] == c;
                        assert(removed@[g@.order[t].0 as int]);
                        assert(g@.order[t].0 < n);
                    }
                    assert(g@.ranks_active(rk));
                }
                return false;
            },
            Some(x) => {
                proof {
                    let pred = |b: bool| b;
                    lemma_count_flip(removed@, x as int);
                    lemma_nodup_count_bound(removed@);
                }
                removed.set(x, true);
                proof {
                    rank = rank.update(x as int, step as nat);
                }
                step = step + 1;
                proof {
                    assert forall|c: NodeId, j: int|
                        c.0 < n && removed@[c.0 as int] && 0 <= j < g@.parents(c).len() && g@.is_active(
                            #[trigger] g@.parents(c)[j],
                        ) implies removed@[g@.parents(c)[j].0 as int] && rank[g@.parents(c)[j].0 as int]
                        < rank[c.0 as int] by {
                        let p = g@.parents(c)[j];
                        assert(g@.nodes[c.0 as int].parents[j].0 < n);
                        if c.0 == x {
                            assert(NodeId(x) == c);
                        }
                    }
                }
            },
        }
    }
}

/// Returns `node` followed by all of its ancestors in the arena, each once.
pub fn collect_ancestors(g: &LinkedGraph, node: NodeId) -> (v: Vec<NodeId>)
    requires
        g@.wf(),
        node.0 < g@.len(),
    ensures
        v@.len() >= 1,
        v@[0] == node,
        v@.no_duplicates(),
        g@.parent_closed(v@),
        forall|k: int| 0 <= k < v@.len() ==> g@.reaches(node, #[trigger] v@[k]),
        forall|k: int| 0 <= k < v@.len() ==> (#[trigger] v@[k]).0 < g@.len(),
{
    let n = g.arena_len();
    let mut seen: Vec<bool> = Vec::new();
    let mut i: usize = 0;
    while i < n
        invariant
            n == g@.len(),
            i <= n,
            seen@.len() == i,
            forall|k: int| 0 <= k < i ==> !seen@[k],
        decreases n - i,
    {
        seen.push(false);
        i = i + 1;
    }
    let mut v: Vec<NodeId> = Vec::new();
    v.push(node);
    seen.set(node.0, true);
    proof {
        lemma_reaches_self(g@, node);
        assert forall|i: int| 0 <= i < n implies seen@[i] == v@.contains(NodeId(i as usize)) by {
            if i == node.0 {
                assert(v@[0] == NodeId(i as usize));
            } else {
                assert(NodeId(i as usize) != node);
            }
        }
    }
    // v[..head] have had their parents listed
    let mut head: usize = 0;
    while head < v.len()
        invariant
            g@.wf(),
            n == g@.len(),
            seen@.len() == n,
            head <= v@.len(),
            v@.len() >= 1,
            v@[0] == node,
            v@.no_duplicates(),
            forall|k: int| 0 <= k < v@.len() ==> (#[trigger] v@[k]).0 < n,
            forall|i: int| 0 <= i < n ==> seen@[i] == v@.contains(NodeId(i as usize)),
            forall|k: int| 0 <= k < v@.len() ==> g@.reaches(node, #[trigger] v@[k]),
            forall|k: int, j: int|
                0 <= k < head && 0 <= j < g@.parents(v@[k]).len() ==> v@.contains(
                    #[trigger] g@.parents(v@[k])[j],
                ),
        decreases n - head,
    {
        proof {
            lemma_nodup_bounded(v@, n as nat);
        }
        let x = v[head];
        let ps = g.parents_of(x);
        let mut j: usize = 0;
        while j < ps.len()
            invariant
                g@.wf(),
                n == g@.len(),
                seen@.len() == n,
                x == v@[head as int],
                head < v@.len(),
                x.0 < n,
                ps@ == g@.parents(x),
                j <= ps@.len(),
                v@.len() >= 1,
                v@[0] == node,
                v@.no_duplicates(),
                forall|k: int| 0 <= k < v@.len() ==> (#[trigger] v@[k]).0 < n,
                forall|i: int| 0 <= i < n ==> seen@[i] == v@.contains(NodeId(i as usize)),
                forall|k: int| 0 <= k < v@.len() ==> g@.reaches(node, #[trigger] v@[k]),
                forall|k: int, t: int|
                    0 <= k < head && 0 <= t < g@.parents(v@[k]).len() ==> v@.contains(
                        #[trigger] g@.parents(v@[k])[t],
                    ),
                forall|t: int| 0 <= t < j ==> v@.contains(#[trigger] g@.parents(x)[t]),
            decreases ps@.len() - j,
        {
            let p = ps[j];
            proof {
                assert(g@.nodes[x.0 as int].parents[j as int].0 < n);
                assert(NodeId(p.0) == p);
            }
            if !seen[p.0] {
                let ghost v1 = v@;
                v.push(p);
                seen.set(p.0, true);
                proof {
                    assert(g@.reaches(node, x));
                    assert(g@.has_parent(x, p)) by {
                        assert(g@.parents(x)[j as int] == p);
                    }
                    lemma_reaches_path_end(g@, node, x, p);
                    assert forall|a: int| 0 <= a < v@.len() implies g@.reaches(node, #[trigger] v@[a]) by {
                        if a < v1.len() {
                            assert(v@[a] == v1[a]);
                        }
                    }
                    assert(v@.no_duplicates()) by {
                        assert forall|a: int, b: int| 0 <= a < b < v@.len() implies v@[a] != v@[b] by {
                            if b == v1.len() {
                                assert(v1.contains(v1[a]));
                            }
                        }
                    }
                    assert forall|i: int| 0 <= i < n implies seen@[i] == v@.contains(NodeId(i as usize)) by {
                        if i == p.0 {
                            assert(v@[v1.len() as int] == NodeId(i as usize));
                        } else {
                            assert(NodeId(i as usize) != p);
                            if v@.contains(NodeId(i as usize)) {
                                let q = choose|q: int| 0 <= q < v@.len() && v@[q] == NodeId(i as usize);
                                assert(v1[q] == NodeId(i as usize));
                            }
                            if v1.contains(NodeId(i as usize)) {
                                let q = choose|q: int| 0 <= q < v1.len() && v1[q] == NodeId(i as usize);
                                assert(v@[q] == NodeId(i as usize));
                            }
                        }
                    }
                    assert forall|y: NodeId| v1.contains(y) implies v@.contains(y) by {
                        let q = choose|q: int| 0 <= q < v1.len() && v1[q] == y;
                        assert(v@[q] == y);
                    }
                    assert(v@.contains(p)) by {
                        assert(v@[v1.len() as int] == p);
                    }
                }
            }
            proof {
                assert(v@.contains(p));
            }
            j = j + 1;
        }
        head = head + 1;
    }
    v
}

/// A walk to `x` extends by a parent of `x`.
pub proof fn lemma_reaches_path_end(g: GraphModel, a: NodeId, x: NodeId, p: NodeId)
    requires
        g.wf(),
        g.reaches(a, x),
        g.has_parent(x, p),
    ensures
        g.reaches(a, p),
{
    let s = choose|s: Seq<NodeId>| #[trigger] g.is_path(s) && s[0] == a && s.last() == x;
    let t = s.push(p);
    assert(x.0 < g.len()) by {
        assert(s[s.len() - 1].0 < g.nodes.len());
    }
    assert(p.0 < g.len()) by {
        let j = choose|j: int| 0 <= j < g.parents(x).len() && g.parents(x)[j] == p;
        assert(g.nodes[x.0 as int].parents[j].0 < g.nodes.len());
    }
    assert forall|k: int| 0 <= k < t.len() - 1 implies #[trigger] g.has_parent(t[k], t[k + 1]) by {
        if k < s.len() - 1 {
            assert(g.has_parent(s[k], s[k + 1]));
        }
    }
    assert(g.is_path(t));
}

/// Marking more entries does not lower the count.
pub proof fn lemma_count_mono(s: Seq<bool>, t: Seq<bool>)
    requires
        s.len() == t.len(),
        forall|i: int| 0 <= i < s.len() && s[i] ==> t[i],
    ensures
        s.filter(|b: bool| b).len() <= t.filter(|b: bool| b).len(),
    decreases s.len(),
{
    reveal(Seq::filter);
    if s.len() > 0 {
        lemma_count_mono(s.drop_last(), t.drop_last());
    }
}

/// Returns the ancestors of `node` in pre-order, `node` first, or an error when
/// a cycle is met on the way up.
pub fn ordered_subnodes_hierarchy(g: &LinkedGraph, node: NodeId) -> (r: Result<Vec<NodeId>, CycleError>)
    requires
        g@.wf(),
        node.0 < g@.len(),
    ensures
        r matches Ok(v) ==> g@.is_hierarchy(node, v@) && g@.parent_closed(v@),
        r matches Ok(v) ==> v@ == preorder_add(g@.nodes, Seq::empty(), node, (g@.len() + 1) as nat),
        r is Err <==> g@.cycle_above(node),
{
    let n = g.arena_len();
    let mut started: Vec<bool> = Vec::new();
    let mut visited: Vec<bool> = Vec::new();
    let mut i: usize = 0;
    while i < n
        invariant
            n == g@.len(),
            i <= n,
            started@.len() == i,
            visited@.len() == i,
            forall|k: int| 0 <= k < i ==> !started@[k] && !visited@[k],
        decreases n - i,
    {
        started.push(false);
        visited.push(false);
        i = i + 1;
    }
    proof {
        lemma_count_all_false(started@);
    }
    let ghost s0 = started@;
    started.set(node.0, true);
    proof {
        lemma_count_flip(s0, node.0 as int);
        assert(NodeId(node.0) == node);
        assert forall|i: int| 0 <= i < n implies (started@[i] && !visited@[i]) == seq![node].contains(
            NodeId(i as usize),
        ) by {
            if i == node.0 {
                assert(seq![node][0] == NodeId(i as usize));
            } else {
                assert(NodeId(i as usize) != node);
            }
        }
        lemma_reaches_self(g@, node);
    }
    let ghost stk0 = seq![node];
    proof {
        assert(order_ok(g@.nodes, stk0));
        assert forall|i: int| 0 <= i < n implies started@[i] == stk0.contains(NodeId(i as usize)) by {
            if i == node.0 {
                assert(stk0[0] == NodeId(i as usize));
            } else {
                assert(NodeId(i as usize) != node);
            }
        }
    }
    let r = subtree_impl(g, node, &mut started, &mut visited, Ghost(stk0), Ghost(node), Ghost(stk0));
    proof {
        if let Ok(v) = &r {
            assert(stk0 + v@.drop_first() =~= v@);
            assert(!Seq::<NodeId>::empty().contains(node));
            assert(Seq::<NodeId>::empty().push(node) =~= stk0);
            assert(preorder_add(g@.nodes, Seq::empty(), node, (n + 1) as nat) == preorder_list(g@.nodes, stk0, g@.nodes[node.0 as int].parents, n as nat));
            assert forall|j: int| 0 <= j < g@.parents(node).len() implies !g@.cycle_above(#[trigger] g@.parents(node)[j]) by {
                let q = g@.parents(node)[j];
                assert(g@.nodes[node.0 as int].parents[j].0 < n);
                assert(visited@[q.0 as int]);
                assert(NodeId(q.0) == q);
            }
            lemma_no_cycle_above(g@, node);
            assert forall|k: int, j: int|
                0 <= k < v@.len() && 0 <= j < g@.parents(v@[k]).len() implies v@.contains(
                #[trigger] g@.parents(v@[k])[j],
            ) by {
                let x = v@[k];
                let p = g@.parents(x)[j];
                assert(g@.nodes[x.0 as int].parents[j].0 < n);
                if x != node {
                    assert(visited@[x.0 as int]);
                }
                assert(visited@[p.0 as int]);
                assert(NodeId(p.0) == p);
            }
        }
    }
    r
}

/// A parent met already leaves the pre-order as it is.
proof fn lemma_pre_step_seen(nodes: Seq<crate::dag::node::NodeModel>, seen: Seq<NodeId>, ps: Seq<NodeId>, i: int, cur: Seq<NodeId>, fuel: nat)
    requires
        0 <= i < ps.len(),
        cur == preorder_list(nodes, seen, ps.take(i), fuel),
        cur.contains(ps[i]),
    ensures
        cur == preorder_list(nodes, seen, ps.take(i + 1), fuel),
{
    assert(ps.take(i + 1).drop_last() =~= ps.take(i));
    assert(ps.take(i + 1).last() == ps[i]);
    assert(preorder_list(nodes, seen, ps.take(i + 1), fuel) == preorder_add(
        nodes,
        preorder_list(nodes, seen, ps.take(i + 1).drop_last(), fuel),
        ps.take(i + 1).last(),
        fuel,
    ));
    assert(preorder_add(nodes, cur, ps[i], fuel) == cur);
}

/// A parent not met yet adds its own pre-order.
proof fn lemma_pre_step_new(
    nodes: Seq<crate::dag::node::NodeModel>,
    seen: Seq<NodeId>,
    ps: Seq<NodeId>,
    i: int,
    cur: Seq<NodeId>,
    v: Seq<NodeId>,
    fuel: nat,
)
    requires
        parents_ok(nodes),
        0 <= i < ps.len(),
        ps[i].0 < nodes.len(),
        fuel + 1 >= nodes.len() + 1,
        cur.len() >= 1,
        cur == preorder_list(nodes, seen, ps.take(i), fuel),
        !cur.contains(ps[i]),
        order_ok(nodes, cur.push(ps[i])),
        v.len() >= 1,
        v[0] == ps[i],
        cur.push(ps[i]) + v.drop_first() == preorder_list(nodes, cur.push(ps[i]), nodes[ps[i].0 as int].parents, fuel),
    ensures
        cur + v == preorder_list(nodes, seen, ps.take(i + 1), fuel),
{
    let p = ps[i];
    assert(ps.take(i + 1).drop_last() =~= ps.take(i));
    assert(ps.take(i + 1).last() == p);
    assert forall|k: int| 0 <= k < nodes[p.0 as int].parents.len() implies (#[trigger] nodes[p.0 as int].parents[k]).0 < nodes.len() by {}
    lemma_preorder_list(nodes, cur.push(p), nodes[p.0 as int].parents, fuel, (fuel - 1) as nat);
    assert(preorder_add(nodes, cur, p, fuel) == preorder_list(nodes, cur.push(p), nodes[p.0 as int].parents, (fuel - 1) as nat));
    assert(cur.push(p) + v.drop_first() =~= cur + v);
}

#[verifier::spinoff_prover]
#[verifier::rlimit(80)]
/// The recursive step of [`ordered_subnodes_hierarchy`]: `stk` is the walk from
/// `root` to `node` along which the search stands.
fn subtree_impl(
    g: &LinkedGraph,
    node: NodeId,
    started: &mut Vec<bool>,
    visited: &mut Vec<bool>,
    Ghost(stk): Ghost<Seq<NodeId>>,
    Ghost(root): Ghost<NodeId>,
    Ghost(seen): Ghost<Seq<NodeId>>,
) -> (r: Result<Vec<NodeId>, CycleError>)
    requires
        g@.wf(),
        node.0 < g@.len(),
        seen.len() >= 1,
        seen.last() == node,
        order_ok(g@.nodes, seen),
        forall|i: int| 0 <= i < g@.len() ==> old(started)@[i] == seen.contains(NodeId(i as usize)),
        old(started)@.len() == g@.len(),
        old(visited)@.len() == g@.len(),
        forall|i: int| 0 <= i < g@.len() && old(visited)@[i] ==> old(started)@[i],
        forall|c: NodeId, j: int|
            c.0 < g@.len() && old(visited)@[c.0 as int] && 0 <= j < g@.parents(c).len() ==> old(visited)@[(
            #[trigger] g@.parents(c)[j]).0 as int],
        g@.is_path(stk),
        stk[0] == root,
        stk.last() == node,
        forall|i: int| 0 <= i < g@.len() ==> (old(started)@[i] && !old(visited)@[i]) == stk.contains(NodeId(i as usize)),
        forall|i: int| 0 <= i < g@.len() && old(visited)@[i] ==> !g@.cycle_above(NodeId(i as usize)),
    ensures
        forall|i: int| 0 <= i < g@.len() && final(visited)@[i] ==> !g@.cycle_above(NodeId(i as usize)),
        final(started)@.len() == g@.len(),
        final(visited)@.len() == g@.len(),
        forall|i: int| 0 <= i < g@.len() && old(started)@[i] ==> final(started)@[i],
        forall|i: int| 0 <= i < g@.len() && old(visited)@[i] ==> final(visited)@[i],
        forall|i: int| 0 <= i < g@.len() && final(visited)@[i] ==> final(started)@[i],
        forall|c: NodeId, j: int|
            c.0 < g@.len() && final(visited)@[c.0 as int] && 0 <= j < g@.parents(c).len() ==> final(visited)@[(
            #[trigger] g@.parents(c)[j]).0 as int],
        r matches Ok(v) ==> {
            &&& v@.len() >= 1
            &&& v@[0] == node
            &&& seen + v@.drop_first() == preorder_list(g@.nodes, seen, g@.parents(node), g@.len() as nat)
            &&& forall|i: int| 0 <= i < g@.len() ==> final(started)@[i] == (seen + v@.drop_first()).contains(NodeId(i as usize))
            &&& forall|i: int| 0 <= i < g@.len() ==> (final(started)@[i] && !final(visited)@[i]) == stk.contains(NodeId(i as usize))
            &&& forall|j: int| 0 <= j < g@.parents(node).len() ==> final(visited)@[(
                #[trigger] g@.parents(node)[j]).0 as int]
            &&& g@.is_hierarchy(node, v@)
            &&& forall|k: int| 0 < k < v@.len() ==> final(visited)@[(#[trigger] v@[k]).0 as int] && !old(visited)@[v@[k].0 as int]
            &&& forall|i: int| 0 <= i < g@.len() && final(visited)@[i] && !old(visited)@[i] ==> v@.contains(NodeId(i as usize))
        },
        r is Err ==> g@.cycle_above(root),
    decreases g@.len() - old(started)@.filter(|b: bool| b).len(),
{
    let ghost n = g@.len();
    let ghost v0 = visited@;
    let mut nodes: Vec<NodeId> = Vec::new();
    nodes.push(node);
    let parents = g.parents_of(node);
    proof {
        lemma_reaches_self(g@, node);
        assert(stk.contains(node)) by {
            assert(stk[stk.len() - 1] == node);
        }
        assert(!visited@[node.0 as int]) by {
            assert(NodeId(node.0) == node);
        }
        assert(nodes@.drop_first() =~= Seq::<NodeId>::empty());
        assert(seen + nodes@.drop_first() =~= seen);
        assert(parents@.take(0) =~= Seq::<NodeId>::empty());
    }
    let ghost mut cur: Seq<NodeId> = seen;
    let mut i: usize = 0;
    while i < parents.len()
        invariant
            g@.wf(),
            n == g@.len(),
            node.0 < n,
            parents@ == g@.parents(node),
            nodes@.len() >= 1,
            nodes@[0] == node,
            cur == seen + nodes@.drop_first(),
            seen.len() >= 1,
            order_ok(g@.nodes, seen),
            cur.len() >= 1,
            order_ok(g@.nodes, cur),
            cur == preorder_list(g@.nodes, seen, parents@.take(i as int), n as nat),
            forall|k: int| 0 <= k < n ==> started@[k] == cur.contains(NodeId(k as usize)),
            i <= parents@.len(),
            started@.len() == n,
            visited@.len() == n,
            v0 == old(visited)@,
            v0.len() == n,
            old(started)@.len() == n,
            forall|k: int| 0 <= k < n && old(started)@[k] ==> started@[k],
            forall|k: int| 0 <= k < n && old(visited)@[k] ==> visited@[k],
            forall|k: int| 0 <= k < n && visited@[k] ==> started@[k],
            forall|c: NodeId, j: int|
                c.0 < n && visited@[c.0 as int] && 0 <= j < g@.parents(c).len() ==> visited@[(
                #[trigger] g@.parents(c)[j]).0 as int],
            g@.is_path(stk),
            stk[0] == root,
            stk.last() == node,
            forall|k: int| 0 <= k < n ==> (started@[k] && !visited@[k]) == stk.contains(NodeId(k as usize)),
            forall|j: int| 0 <= j < i ==> visited@[(#[trigger] parents@[j]).0 as int],
            g@.is_hierarchy(node, nodes@),
            forall|k: int| 0 < k < nodes@.len() ==> visited@[(#[trigger] nodes@[k]).0 as int] && !v0[nodes@[k].0 as int],
            forall|k: int| 0 <= k < n && visited@[k] && !v0[k] ==> nodes@.contains(NodeId(k as usize)),
            forall|k: int| 0 <= k < n && visited@[k] ==> !g@.cycle_above(NodeId(k as usize)),
            !visited@[node.0 as int],
            old(started)@.filter(|b: bool| b).len() <= started@.filter(|b: bool| b).len(),
        decreases parents@.len() - i,
    {
        let p = parents[i];
        proof {
            assert(g@.nodes[node.0 as int].parents[i as int].0 < n);
            assert(NodeId(p.0) == p);
        }
        if visited[p.0] {
            proof {
                assert(started@[p.0 as int]);
                assert(cur.contains(NodeId(p.0)));
                lemma_pre_step_seen(g@.nodes, seen, parents@, i as int, cur, n as nat);
                assert(parents@[i as int] == p);
            }
            i = i + 1;
            continue;
        }
        if started[p.0] {
            proof {
                lemma_back_edge_cycle(g@, stk, root, node, p);
            }
            return Err(CycleError);
        }
        let ghost st0 = started@;
        let ghost vis1 = visited@;
        started.set(p.0, true);
        let ghost stk2 = stk.push(p);
        proof {
            lemma_count_flip(st0, p.0 as int);
            lemma_count_mono(old(started)@, st0);
            lemma_nodup_count_bound(started@);
            assert(g@.has_parent(node, p)) by {
                assert(g@.parents(node)[i as int] == p);
            }
            assert(g@.is_path(stk2)) by {
                assert forall|k: int| 0 <= k < stk2.len() - 1 implies #[trigger] g@.has_parent(stk2[k], stk2[k + 1]) by {
                    if k < stk.len() - 1 {
                        assert(g@.has_parent(stk[k], stk[k + 1]));
                    }
                }
            }
            assert forall|k: int| 0 <= k < n implies (started@[k] && !visited@[k]) == stk2.contains(NodeId(k as usize)) by {
                if k == p.0 {
                    assert(stk2[stk.len() as int] == p);
                } else {
                    assert(NodeId(k as usize) != p);
                    if stk2.contains(NodeId(k as usize)) {
                        let q = choose|q: int| 0 <= q < stk2.len() && stk2[q] == NodeId(k as usize);
                        assert(stk[q] == NodeId(k as usize));
                    }
                    if stk.contains(NodeId(k as usize)) {
                        let q = choose|q: int| 0 <= q < stk.len() && stk[q] == NodeId(k as usize);
                        assert(stk2[q] == NodeId(k as usize));
                    }
                }
            }
        }
        let ghost seen2 = cur.push(p);
        proof {
            assert(!cur.contains(p)) by {
                assert(!st0[p.0 as int]);
            }
            assert(order_ok(g@.nodes, seen2)) by {
                assert forall|a: int, b: int| 0 <= a < b < seen2.len() implies seen2[a] != seen2[b] by {
                    if b == cur.len() {
                        assert(seen2[a] == cur[a]);
                    }
                }
            }
            assert forall|k: int| 0 <= k < n implies started@[k] == seen2.contains(NodeId(k as usize)) by {
                if k == p.0 {
                    assert(seen2[cur.len() as int] == p);
                } else {
                    assert(NodeId(k as usize) != p);
                    if seen2.contains(NodeId(k as usize)) {
                        let q = choose|q: int| 0 <= q < seen2.len() && seen2[q] == NodeId(k as usize);
                        assert(cur[q] == NodeId(k as usize));
                    }
                    if cur.contains(NodeId(k as usize)) {
                        let q = choose|q: int| 0 <= q < cur.len() && cur[q] == NodeId(k as usize);
                        assert(seen2[q] == NodeId(k as usize));
                    }
                }
            }
        }
        let sub = subtree_impl(g, p, started, visited, Ghost(stk2), Ghost(root), Ghost(seen2));
        match sub {
            Err(e) => {
                return Err(e);
            },
            Ok(v) => {
                let ghost vis2 = visited@;
                let ghost before = nodes@;
                proof {
                    assert(!vis1[p.0 as int]);
                    assert(p != node) by {
                        assert(stk.contains(node)) by {
                            assert(stk[stk.len() - 1] == node);
                        }
                        assert(NodeId(node.0) == node);
                        assert(st0[node.0 as int]);
                    }
                }
                let mut t: usize = 0;
                while t < v.len()
                    invariant
                        t <= v@.len(),
                        nodes@ == before + v@.take(t as int),
                    decreases v@.len() - t,
                {
                    nodes.push(v[t]);
                    proof {
                        assert(v@.take(t + 1) =~= v@.take(t as int).push(v@[t as int]));
                    }
                    t = t + 1;
                }
                proof {
                    assert(v@.take(v@.len() as int) =~= v@);
                    assert(parents@[i as int] == p);
                    assert(g@.parents(p) == g@.nodes[p.0 as int].parents);
                    lemma_pre_step_new(g@.nodes, seen, parents@, i as int, cur, v@, n as nat);
                    assert(seen2 + v@.drop_first() =~= cur + v@);
                    assert(nodes@.drop_first() =~= before.drop_first() + v@);
                    assert forall|k: int| 0 <= k < parents@.take(i + 1).len() implies (#[trigger] parents@.take(i + 1)[k]).0 < n by {
                        assert(parents@.take(i + 1)[k] == parents@[k]);
                        assert(g@.nodes[node.0 as int].parents[k].0 < n);
                    }
                    lemma_preorder_list(g@.nodes, seen, parents@.take(i + 1), n as nat, n as nat);
                    cur = cur + v@;
                }
                proof {
                    assert forall|j: int| 0 <= j < g@.parents(p).len() implies !g@.cycle_above(#[trigger] g@.parents(p)[j]) by {
                        let q = g@.parents(p)[j];
                        assert(g@.nodes[p.0 as int].parents[j].0 < n);
                        assert(vis2[q.0 as int]);
                        assert(NodeId(q.0) == q);
                    }
                    lemma_no_cycle_above(g@, p);
                    assert(NodeId(p.0) == p);
                }
                visited.set(p.0, true);
                proof {
                    lemma_append_hierarchy(g@, node, before, v@, vis1, vis2, v0, p, i as int, parents@);
                    let stk_ok = forall|k: int| 0 <= k < n ==> (started@[k] && !visited@[k]) == stk.contains(NodeId(k as usize));
                    assert forall|k: int| 0 <= k < n implies (started@[k] && !visited@[k]) == stk.contains(NodeId(k as usize)) by {
                        assert(vis2[k] == visited@[k] || k == p.0);
                        if k == p.0 {
                            assert(NodeId(k as usize) == p);
                            assert(!stk.contains(p)) by {
                                assert(st0[p.0 as int] == false);
                            }
                        } else {
                            assert(NodeId(k as usize) != p);
                            if stk2.contains(NodeId(k as usize)) {
                                let q = choose|q: int| 0 <= q < stk2.len() && stk2[q] == NodeId(k as usize);
                                assert(stk[q] == NodeId(k as usize));
                            }
                            if stk.contains(NodeId(k as usize)) {
                                let q = choose|q: int| 0 <= q < stk.len() && stk[q] == NodeId(k as usize);
                                assert(stk2[q] == NodeId(k as usize));
                            }
                        }
                    }
                    assert forall|c: NodeId, j: int|
                        c.0 < n && visited@[c.0 as int] && 0 <= j < g@.parents(c).len() implies visited@[(
                        #[trigger] g@.parents(c)[j]).0 as int] by {
                        if c == p {
                            assert(vis2[g@.parents(p)[j].0 as int]);
                        } else {
                            assert(vis2[c.0 as int]);
                        }
                    }
                    assert forall|j: int| 0 <= j < i + 1 implies visited@[(#[trigger] parents@[j]).0 as int] by {
                        if j < i {
                            assert(vis2[parents@[j].0 as int]);
                        }
                    }
                    lemma_count_mono(st0.update(p.0 as int, true), started@);
                }
            },
        }
        i = i + 1;
    }
    proof {
        assert(parents@.take(parents@.len() as int) =~= parents@);
    }
    Ok(nodes)
}

/// Appending the hierarchy of the parent `p` keeps the hierarchy of `node`.
#[verifier::spinoff_prover]
#[verifier::rlimit(40)]
proof fn lemma_append_hierarchy(
    g: GraphModel,
    node: NodeId,
    before: Seq<NodeId>,
    v: Seq<NodeId>,
    vis1: Seq<bool>,
    vis2: Seq<bool>,
    v0: Seq<bool>,
    p: NodeId,
    i: int,
    parents: Seq<NodeId>,
)
    requires
        g.wf(),
        node.0 < g.len(),
        parents == g.parents(node),
        0 <= i < parents.len(),
        parents[i] == p,
        p != node,
        vis1.len() == g.len(),
        vis2.len() == g.len(),
        v0.len() == g.len(),
        !vis1[p.0 as int],
        !vis1[node.0 as int],
        !vis2[node.0 as int],
        forall|k: int| 0 <= k < g.len() && vis1[k] ==> vis2[k],
        forall|k: int| 0 <= k < g.len() && v0[k] ==> vis1[k],
        g.is_hierarchy(node, before),
        forall|k: int| 0 < k < before.len() ==> vis1[(#[trigger] before[k]).0 as int] && !v0[before[k].0 as int],
        forall|k: int| 0 <= k < g.len() && vis1[k] && !v0[k] ==> before.contains(NodeId(k as usize)),
        g.is_hierarchy(p, v),
        forall|k: int| 0 < k < v.len() ==> vis2[(#[trigger] v[k]).0 as int] && !vis1[v[k].0 as int],
        forall|k: int| 0 <= k < g.len() && vis2[k] && !vis1[k] ==> v.contains(NodeId(k as usize)),
    ensures
        ({
            let vis3 = vis2.update(p.0 as int, true);
            let all = before + v;
            &&& g.is_hierarchy(node, all)
            &&& forall|k: int| 0 < k < all.len() ==> vis3[(#[trigger] all[k]).0 as int] && !v0[all[k].0 as int]
            &&& forall|k: int| 0 <= k < g.len() && vis3[k] && !v0[k] ==> all.contains(NodeId(k as usize))
            &&& !vis3[node.0 as int]
        }),
{
    let vis3 = vis2.update(p.0 as int, true);
    let all = before + v;
    assert(g.has_parent(node, p)) by {
        assert(parents[i] == p);
    }
    assert(p.0 < g.len()) by {
        assert(g.nodes[node.0 as int].parents[i].0 < g.len());
    }
    assert forall|k: int| 0 <= k < all.len() implies g.reaches(node, #[trigger] all[k]) by {
        if k >= before.len() {
            assert(all[k] == v[k - before.len()]);
            assert(g.reaches(p, v[k - before.len()]));
            lemma_reaches_step(g, node, p, all[k]);
        } else {
            assert(all[k] == before[k]);
        }
    }
    assert forall|k: int| 0 < k < all.len() implies exists|j: int| 0 <= j < k && g.has_parent(all[j], #[trigger] all[k]) by {
        if k < before.len() {
            assert(all[k] == before[k]);
            let j = choose|j: int| 0 <= j < k && g.has_parent(before[j], before[k]);
            assert(all[j] == before[j]);
        } else if k == before.len() {
            assert(all[k] == v[0]);
            assert(all[0] == node);
        } else {
            let kk = k - before.len();
            assert(all[k] == v[kk]);
            let j = choose|j: int| 0 <= j < kk && g.has_parent(v[j], v[kk]);
            assert(all[before.len() + j] == v[j]);
        }
    }
    assert forall|k: int| 0 < k < all.len() implies vis3[(#[trigger] all[k]).0 as int] && !v0[all[k].0 as int] by {
        if k < before.len() {
            assert(all[k] == before[k]);
        } else if k == before.len() {
            assert(all[k] == p);
        } else {
            assert(all[k] == v[k - before.len()]);
        }
    }
    assert(all.no_duplicates()) by {
        assert forall|a: int, b: int| 0 <= a < b < all.len() implies all[a] != all[b] by {
            if b < before.len() {
                assert(all[a] == before[a] && all[b] == before[b]);
            } else if a >= before.len() {
                assert(all[a] == v[a - before.len()] && all[b] == v[b - before.len()]);
            } else {
                assert(all[a] == before[a] && all[b] == v[b - before.len()]);
                let y = v[b - before.len()];
                if a == 0 {
                    if b - before.len() == 0 {
                    } else {
                        assert(vis2[y.0 as int]);
                    }
                } else {
                    assert(vis1[before[a].0 as int]);
                    if b - before.len() == 0 {
                        assert(y == p);
                    } else {
                        assert(!vis1[y.0 as int]);
                    }
                }
            }
        }
    }
    assert forall|k: int| 0 <= k < g.len() && vis3[k] && !v0[k] implies all.contains(NodeId(k as usize)) by {
        if k == p.0 {
            assert(all[before.len() as int] == v[0]);
            assert(NodeId(k as usize) == p);
        } else if vis1[k] {
            let q = choose|q: int| 0 <= q < before.len() && before[q] == NodeId(k as usize);
            assert(all[q] == before[q]);
        } else {
            assert(vis2[k]);
            let q = choose|q: int| 0 <= q < v.len() && v[q] == NodeId(k as usize);
            assert(all[before.len() + q] == v[q]);
        }
    }
}

/// A cycle above `x` lies above one of the parents of `x`.
proof fn lemma_cycle_above_parent(g: GraphModel, x: NodeId)
    requires
        g.wf(),
        x.0 < g.len(),
        g.cycle_above(x),
    ensures
        exists|j: int| 0 <= j < g.parents(x).len() && g.cycle_above(#[trigger] g.parents(x)[j]),
{
    let y = choose|y: NodeId| g.reaches(x, y) && #[trigger] g.on_cycle(y);
    let s = choose|s: Seq<NodeId>| #[trigger] g.is_path(s) && s[0] == x && s.last() == y;
    if s.len() >= 2 {
        let t = s.drop_first();
        assert(g.is_path(t)) by {
            assert forall|k: int| 0 <= k < t.len() - 1 implies #[trigger] g.has_parent(t[k], t[k + 1]) by {
                assert(g.has_parent(s[k + 1], s[(k + 1) + 1]));
            }
        }
        assert(t.last() == y);
        assert(g.has_parent(s[0int], s[0int + 1]));
        let j = choose|j: int| 0 <= j < g.parents(x).len() && g.parents(x)[j] == s[1];
        assert(g.reaches(g.parents(x)[j], y));
        assert(g.cycle_above(g.parents(x)[j]));
    } else {
        assert(y == x);
        let c = choose|c: Seq<NodeId>| #[trigger] g.is_path(c) && c.len() >= 2 && c[0] == x && c.last() == x;
        let t = c.drop_first();
        assert(g.is_path(t)) by {
            assert forall|k: int| 0 <= k < t.len() - 1 implies #[trigger] g.has_parent(t[k], t[k + 1]) by {
                assert(g.has_parent(c[k + 1], c[(k + 1) + 1]));
            }
        }
        assert(t.last() == x);
        assert(g.has_parent(c[0int], c[0int + 1]));
        let j = choose|j: int| 0 <= j < g.parents(x).len() && g.parents(x)[j] == c[1];
        assert(g.reaches(g.parents(x)[j], x));
        assert(g.cycle_above(g.parents(x)[j]));
    }
}

/// A node whose parents all have no cycle above them has none above itself.
proof fn lemma_no_cycle_above(g: GraphModel, x: NodeId)
    requires
        g.wf(),
        x.0 < g.len(),
        forall|j: int| 0 <= j < g.parents(x).len() ==> !g.cycle_above(#[trigger] g.parents(x)[j]),
    ensures
        !g.cycle_above(x),
{
    if g.cycle_above(x) {
        lemma_cycle_above_parent(g, x);
    }
}

/// Meeting a node that is on the current walk closes a cycle above `root`.
proof fn lemma_back_edge_cycle(g: GraphModel, stk: Seq<NodeId>, root: NodeId, node: NodeId, p: NodeId)
    requires
        g.wf(),
        g.is_path(stk),
        stk[0] == root,
        stk.last() == node,
        stk.contains(p),
        g.has_parent(node, p),
    ensures
        g.cycle_above(root),
{
    let q = choose|q: int| 0 <= q < stk.len() && stk[q] == p;
    let pre = stk.take(q + 1);
    assert(g.is_path(pre)) by {
        assert forall|k: int| 0 <= k < pre.len() - 1 implies #[trigger] g.has_parent(pre[k], pre[k + 1]) by {
            assert(g.has_parent(stk[k], stk[k + 1]));
        }
    }
    assert(pre.last() == p);
    assert(g.reaches(root, p));
    let cyc = stk.subrange(q, stk.len() as int).push(p);
    assert(g.is_path(cyc)) by {
        assert forall|k: int| 0 <= k < cyc.len() - 1 implies #[trigger] g.has_parent(cyc[k], cyc[k + 1]) by {
            if k < stk.len() - q - 1 {
                assert(cyc[k] == stk[q + k] && cyc[k + 1] == stk[q + k + 1]);
                assert(g.has_parent(stk[q + k], stk[(q + k) + 1]));
            } else {
                assert(cyc[k] == node);
            }
        }
        assert forall|k: int| 0 <= k < cyc.len() implies (#[trigger] cyc[k]).0 < g.nodes.len() by {
            if k < stk.len() - q {
                assert(cyc[k] == stk[q + k]);
            }
        }
    }
    assert(cyc[0] == p && cyc.last() == p);
    assert(g.on_cycle(p));
}

/// Counting the marked entries: flipping an unmarked entry adds one.
pub proof fn lemma_count_flip(s: Seq<bool>, x: int)
    requires
        0 <= x < s.len(),
        !s[x],
    ensures
        s.update(x, true).filter(|b: bool| b).len() == s.filter(|b: bool| b).len() + 1,
    decreases s.len(),
{
    reveal(Seq::filter);
    let t = s.update(x, true);
    if x == s.len() - 1 {
        assert(t.drop_last() =~= s.drop_last());
    } else {
        assert(t.drop_last() =~= s.drop_last().update(x, true));
        lemma_count_flip(s.drop_last(), x);
    }
}

/// With no entry marked, the count is zero.
pub proof fn lemma_count_all_false(s: Seq<bool>)
    requires
        forall|i: int| 0 <= i < s.len() ==> !s[i],
    ensures
        s.filter(|b: bool| b).len() == 0,
    decreases s.len(),
{
    reveal(Seq::filter);
    if s.len() > 0 {
        lemma_count_all_false(s.drop_last());
    }
}

/// At most all entries are marked, and only when every entry is.
pub proof fn lemma_nodup_count_bound(s: Seq<bool>)
    ensures
        s.filter(|b: bool| b).len() <= s.len(),
        s.filter(|b: bool| b).len() == s.len() ==> forall|i: int| 0 <= i < s.len() ==> s[i],
    decreases s.len(),
{
    reveal(Seq::filter);
    if s.len() > 0 {
        lemma_nodup_count_bound(s.drop_last());
        assert forall|i: int| 0 <= i < s.len() - 1 implies s.drop_last()[i] == s[i] by {}
    }
}

/// When no remaining active node can leave, the remaining nodes admit no ranking.
proof fn lemma_stuck_means_cycle(g: GraphModel, removed: Seq<bool>, x0: NodeId)
    requires
        g.wf(),
        removed.len() == g.len(),
        g.is_active(x0),
        !removed[x0.0 as int],
        forall|q: int|
            0 <= q < g.order.len() ==> removed[g.order[q].0 as int] || exists|j: int|
                0 <= j < g.parents(g.order[q]).len() && g.is_active(#[trigger] g.parents(g.order[q])[j])
                    && !removed[g.parents(g.order[q])[j].0 as int],
    ensures
        !g.acyclic(),
{
    if g.acyclic() {
        let rank = choose|rank: spec_fn(NodeId) -> nat| g.ranks_active(rank);
        let rest = g.order.filter(|c: NodeId| !removed[c.0 as int]);
        let t0 = choose|t: int| 0 <= t < g.order.len() && g.order[t] == x0;
        g.order.lemma_filter_contains(|c: NodeId| !removed[c.0 as int], t0);
        let m = lemma_min_rank(rest, rank);
        let y = rest[m];
        g.order.lemma_filter_pred(|c: NodeId| !removed[c.0 as int], m);
        assert(rest.contains(y));
        g.order.lemma_filter_contains_rev(|c: NodeId| !removed[c.0 as int], y);
        let q = choose|q: int| 0 <= q < g.order.len() && g.order[q] == y;
        let j = choose|j: int|
            0 <= j < g.parents(g.order[q]).len() && g.is_active(#[trigger] g.parents(g.order[q])[j])
                && !removed[g.parents(g.order[q])[j].0 as int];
        let p = g.parents(y)[j];
        let tp = choose|t: int| 0 <= t < g.order.len() && g.order[t] == p;
        g.order.lemma_filter_contains(|c: NodeId| !removed[c.0 as int], tp);
        let mp = choose|mp: int| 0 <= mp < rest.len() && rest[mp] == p;
        assert(rank(rest[m]) <= rank(rest[mp]));
        assert(rank(p) < rank(y));
    }
}

/// The number of nodes on the longest upward walk from `x` (through parents)
/// among the walks of at most `k` nodes.
pub open spec fn height(g: GraphModel, x: NodeId, k: nat) -> nat
    decreases k, 0nat,
{
    if k == 0 {
        0
    } else {
        1 + height_max(g, g.parents(x), (k - 1) as nat)
    }
}

/// The largest `height(g, x, k)` over the nodes `x` of `s`, or 0 when `s` is empty.
pub open spec fn height_max(g: GraphModel, s: Seq<NodeId>, k: nat) -> nat
    decreases k, s.len(),
{
    if s.len() == 0 {
        0
    } else {
        let a = height_max(g, s.drop_last(), k);
        let b = height(g, s.last(), k);
        if a >= b {
            a
        } else {
            b
        }
    }
}

/// Walks of at most `k` nodes have at most `k` nodes.
pub proof fn lemma_height_bound(g: GraphModel, x: NodeId, k: nat)
    ensures
        height(g, x, k) <= k,
    decreases k, 0nat,
{
    if k > 0 {
        lemma_height_max_bound(g, g.parents(x), (k - 1) as nat);
    }
}

/// The largest height among walks of at most `k` nodes is at most `k`.
pub proof fn lemma_height_max_bound(g: GraphModel, s: Seq<NodeId>, k: nat)
    ensures
        height_max(g, s, k) <= k,
    decreases k, s.len(),
{
    if s.len() > 0 {
        lemma_height_max_bound(g, s.drop_last(), k);
        lemma_height_bound(g, s.last(), k);
    }
}

/// `height(g, x, k)` for every node `x` of the arena.
pub fn height_table(g: &LinkedGraph, k: usize) -> (r: Vec<usize>)
    requires
        g@.wf(),
    ensures
        r@.len() == g@.len(),
        forall|i: int| 0 <= i < g@.len() ==> #[trigger] r@[i] == height(g@, NodeId(i as usize), k as nat),
{
    let n = g.arena_len();
    let mut cur: Vec<usize> = Vec::new();
    let mut i: usize = 0;
    while i < n
        invariant
            n == g@.len(),
            i <= n,
            cur@.len() == i,
            forall|t: int| 0 <= t < i ==> #[trigger] cur@[t] == height(g@, NodeId(t as usize), 0),
        decreases n - i,
    {
        cur.push(0);
        i = i + 1;
    }
    let mut round: usize = 0;
    while round < k
        invariant
            g@.wf(),
            n == g@.len(),
            round <= k,
            cur@.len() == n,
            forall|t: int| 0 <= t < n ==> #[trigger] cur@[t] == height(g@, NodeId(t as usize), round as nat),
        decreases k - round,
    {
        let mut next: Vec<usize> = Vec::new();
        let mut i: usize = 0;
        while i < n
            invariant
                g@.wf(),
                n == g@.len(),
                round < k,
                i <= n,
                cur@.len() == n,
                forall|t: int| 0 <= t < n ==> #[trigger] cur@[t] == height(g@, NodeId(t as usize), round as nat),
                next@.len() == i,
                forall|t: int| 0 <= t < i ==> #[trigger] next@[t] == height(g@, NodeId(t as usize), (round + 1) as nat),
            decreases n - i,
        {
            let ps = g.parents_of(NodeId(i));
            let mut m: usize = 0;
            let mut j: usize = 0;
            while j < ps.len()
                invariant
                    g@.wf(),
                    n == g@.len(),
                    i < n,
                    ps@ == g@.parents(NodeId(i)),
                    j <= ps@.len(),
                    cur@.len() == n,
                    forall|t: int| 0 <= t < n ==> #[trigger] cur@[t] == height(g@, NodeId(t as usize), round as nat),
                    m == height_max(g@, ps@.take(j as int), round as nat),
                decreases ps@.len() - j,
            {
                let p = ps[j];
                proof {
                    assert(g@.nodes[i as int].parents[j as int].0 < n);
                    assert(NodeId(p.0 as usize) == p);
                    assert(ps@.take(j + 1).drop_last() =~= ps@.take(j as int));
                    assert(ps@.take(j + 1).last() == p);
                }
                let hp = cur[p.0];
                if hp > m {
                    m = hp;
                }
                j = j + 1;
            }
            proof {
                assert(ps@.take(ps@.len() as int) =~= ps@);
                lemma_height_max_bound(g@, ps@, round as nat);
            }
            next.push(m + 1);
            i = i + 1;
        }
        cur = next;
        round = round + 1;
    }
    cur
}

/// The depth of a set of nodes: `-1` when a cycle can be reached upwards from
/// one of them, else the number of nodes on the longest upward walk from one
/// of them (0 for none).
pub open spec fn nodes_depth(g: GraphModel, nodes: Seq<NodeId>) -> int {
    if exists|k: int| 0 <= k < nodes.len() && height(g, #[trigger] nodes[k], g.len() + 1) > g.len() {
        -1
    } else {
        height_max(g, nodes, g.len()) as int
    }
}

/// The depth of `nodes`: the number of nodes on the longest upward walk from
/// one of them, or `-1` when such walks can grow without end.
pub fn node_depth(g: &LinkedGraph, nodes: &[NodeId]) -> (r: i32)
    requires
        g@.wf(),
        g@.len() < i32::MAX,
        forall|k: int| 0 <= k < nodes@.len() ==> (#[trigger] nodes@[k]).0 < g@.len(),
    ensures
        r == nodes_depth(g@, nodes@),
{
    let n = g.arena_len();
    let longer = height_table(g, n + 1);
    let heights = height_table(g, n);
    let mut m: usize = 0;
    let mut k: usize = 0;
    while k < nodes.len()
        invariant
            n == g@.len(),
            n < i32::MAX,
            longer@.len() == n,
            heights@.len() == n,
            forall|i: int| 0 <= i < n ==> #[trigger] longer@[i] == height(g@, NodeId(i as usize), (n + 1) as nat),
            forall|i: int| 0 <= i < n ==> #[trigger] heights@[i] == height(g@, NodeId(i as usize), n as nat),
            forall|t: int| 0 <= t < nodes@.len() ==> (#[trigger] nodes@[t]).0 < n,
            k <= nodes@.len(),
            forall|t: int| 0 <= t < k ==> height(g@, #[trigger] nodes@[t], (n + 1) as nat) <= n,
            m == height_max(g@, nodes@.take(k as int), n as nat),
            m <= n,
        decreases nodes@.len() - k,
    {
        let x = nodes[k];
        proof {
            assert(NodeId(x.0 as usize) == x);
            assert(nodes@.take(k + 1).drop_last() =~= nodes@.take(k as int));
            assert(nodes@.take(k + 1).last() == x);
            lemma_height_bound(g@, x, n as nat);
        }
        if longer[x.0] > n {
            return -1;
        }
        if heights[x.0] > m {
            m = heights[x.0];
        }
        k = k + 1;
    }
    proof {
        assert(nodes@.take(nodes@.len() as int) =~= nodes@);
    }
    m as i32
}

/// How many levels lie between `node` and the primary nodes below it: one
/// less than its depth, or `-1` when its depth is not positive.
pub fn distance_to_primary_level(g: &LinkedGraph, node: NodeId) -> (r: i32)
    requires
        g@.wf(),
        g@.len() < i32::MAX,
        node.0 < g@.len(),
    ensures
        r == if nodes_depth(g@, seq![node]) > 0 { nodes_depth(g@, seq![node]) - 1 } else { -1 },
{
    let mut v: Vec<NodeId> = Vec::new();
    v.push(node);
    proof {
        assert(v@ =~= seq![node]);
    }
    let depth = node_depth(g, v.as_slice());
    if depth > 0 {
        depth - 1
    } else {
        -1
    }
}

/// The depth of one root: 0 when a cycle can be reached upwards from it,
/// else the number of nodes on its longest upward walk.
pub open spec fn root_depth(g: GraphModel, x: NodeId) -> nat {
    if height(g, x, g.len() + 1) > g.len() {
        0
    } else {
        height(g, x, g.len())
    }
}

/// The largest `root_depth` over `s`, or 0 when `s` is empty.
pub open spec fn max_root_depth(g: GraphModel, s: Seq<NodeId>) -> nat
    decreases s.len(),
{
    if s.len() == 0 {
        0
    } else {
        let a = max_root_depth(g, s.drop_last());
        let b = root_depth(g, s.last());
        if a >= b {
            a
        } else {
            b
        }
    }
}

/// The depth of the graph: 0 when it has no active node, -1 when it has no
/// root or has a cycle, else the depth of its roots.
pub open spec fn graph_depth(g: GraphModel) -> int {
    if g.order.len() == 0 {
        0
    } else if g.roots().len() == 0 || !g.acyclic() {
        -1
    } else {
        nodes_depth(g, g.roots())
    }
}

/// The largest height over `s` is at least the height of each node of `s`,
/// and is the height of one of them when `s` is not empty.
pub proof fn lemma_height_max_is_max(g: GraphModel, s: Seq<NodeId>, k: nat)
    ensures
        forall|i: int| 0 <= i < s.len() ==> height(g, #[trigger] s[i], k) <= height_max(g, s, k),
        s.len() > 0 ==> exists|i: int| 0 <= i < s.len() && height(g, #[trigger] s[i], k) == height_max(g, s, k),
    decreases s.len(),
{
    if s.len() > 0 {
        let d = s.drop_last();
        lemma_height_max_is_max(g, d, k);
        assert forall|i: int| 0 <= i < s.len() implies height(g, #[trigger] s[i], k) <= height_max(g, s, k) by {
            if i < d.len() {
                assert(s[i] == d[i]);
            }
        }
        if height_max(g, d, k) >= height(g, s.last(), k) && d.len() > 0 {
            let i = choose|i: int| 0 <= i < d.len() && height(g, #[trigger] d[i], k) == height_max(g, d, k);
            assert(s[i] == d[i]);
        } else {
            assert(height(g, s[s.len() - 1], k) == height_max(g, s, k));
        }
    }
}

/// The depth of a graph that has one is the largest depth of its roots: at
/// least the depth of every root, and the depth of one of them.
pub proof fn law_depth_is_max_over_roots(g: GraphModel)
    requires
        g.order.len() > 0,
        graph_depth(g) >= 0,
    ensures
        forall|k: int| 0 <= k < g.roots().len() ==> nodes_depth(g, seq![#[trigger] g.roots()[k]]) <= graph_depth(g),
        exists|k: int| 0 <= k < g.roots().len() && nodes_depth(g, seq![#[trigger] g.roots()[k]]) == graph_depth(g),
{
    let rs = g.roots();
    let n = g.len();
    lemma_height_max_is_max(g, rs, n);
    assert(!(exists|k: int| 0 <= k < rs.len() && height(g, #[trigger] rs[k], n + 1) > n));
    assert forall|k: int| 0 <= k < rs.len() implies nodes_depth(g, seq![#[trigger] rs[k]]) == height(g, rs[k], n) by {
        let one = seq![rs[k]];
        assert(one.drop_last() =~= Seq::<NodeId>::empty());
        assert(height_max(g, one.drop_last(), n) == 0);
        assert(one.last() == rs[k]);
        assert(height_max(g, one, n) == height(g, rs[k], n));
        if exists|j: int| 0 <= j < one.len() && height(g, #[trigger] one[j], n + 1) > n {
            let j = choose|j: int| 0 <= j < one.len() && height(g, #[trigger] one[j], n + 1) > n;
            assert(one[j] == rs[k]);
        }
    }
    let i = choose|i: int| 0 <= i < rs.len() && height(g, #[trigger] rs[i], n) == height_max(g, rs, n);
    assert(nodes_depth(g, seq![rs[i]]) == graph_depth(g));
}

impl LinkedGraph {
    /// The depth of the graph: 0 when it has no active node, -1 when it has
    /// no root or has a cycle, else the number of nodes on the longest
    /// upward walk from a root.
    pub fn depth(&self) -> (r: i64)
        requires
            self@.wf(),
            self@.len() < i32::MAX,
        ensures
            r == graph_depth(self@),
    {
        if self.length() == 0 {
            return 0;
        }
        let roots = self.root_nodes();
        if roots.len() == 0 || graph_has_cycle(self) {
            return -1;
        }
        proof {
            assert forall|k: int| 0 <= k < roots@.len() implies (#[trigger] roots@[k]).0 < self@.len() by {
                self@.order.lemma_filter_pred(self@.root_pred(), k);
                lemma_filter_contains_iff(self@.order, self@.root_pred(), roots@[k]);
                assert(self@.order.filter(self@.root_pred())[k] == roots@[k]);
                let j = choose|j: int| 0 <= j < self@.order.len() && self@.order[j] == roots@[k];
                assert(self@.order[j].0 < self@.len());
            }
        }
        let d = node_depth(self, roots.as_slice());
        d as i64
    }

    /// The depth that layers are counted in: the largest depth of the roots,
    /// where a root from which a cycle can be reached counts 0, and 0 when
    /// there is no root.
    pub fn rooted_depth(&self) -> (r: usize)
        requires
            self@.wf(),
            self@.len() < usize::MAX,
        ensures
            r == max_root_depth(self@, self@.roots()),
    {
        if self.length() == 0 {
            proof {
                assert(self@.roots() =~= Seq::<NodeId>::empty()) by {
                    self@.order.lemma_filter_len(self@.root_pred());
                }
            }
            return 0;
        }
        let roots = self.root_nodes();
        let n = self.arena_len();
        let longer = height_table(self, n + 1);
        let heights = height_table(self, n);
        let mut m: usize = 0;
        let mut k: usize = 0;
        while k < roots.len()
            invariant
                self@.wf(),
                n == self@.len(),
                n < usize::MAX,
                roots@ == self@.roots(),
                longer@.len() == n,
                heights@.len() == n,
                forall|i: int| 0 <= i < n ==> #[trigger] longer@[i] == height(self@, NodeId(i as usize), (n + 1) as nat),
                forall|i: int| 0 <= i < n ==> #[trigger] heights@[i] == height(self@, NodeId(i as usize), n as nat),
                k <= roots@.len(),
                m == max_root_depth(self@, roots@.take(k as int)),
            decreases roots@.len() - k,
        {
            let x = roots[k];
            proof {
                self@.order.lemma_filter_pred(self@.root_pred(), k as int);
                let t = self@.order.filter(self@.root_pred());
                assert(t.contains(x)) by {
                    assert(t[k as int] == x);
                }
                lemma_filter_contains_iff(self@.order, self@.root_pred(), x);
                let j = choose|j: int| 0 <= j < self@.order.len() && self@.order[j] == x;
                assert(self@.order[j].0 < n);
                assert(NodeId(x.0 as usize) == x);
                assert(roots@.take(k + 1).drop_last() =~= roots@.take(k as int));
                assert(roots@.take(k + 1).last() == x);
            }
            let d = if longer[x.0] > n { 0 } else { heights[x.0] };
            if d > m {
                m = d;
            }
            k = k + 1;
        }
        proof {
            assert(roots@.take(roots@.len() as int) =~= roots@);
        }
        m
    }
}

/// The number of steps of the walk that goes from `x` to the first child, and
/// on, for at most `fuel` steps, until a node without children.
pub open spec fn first_child_walk(g: GraphModel, x: NodeId, fuel: nat) -> nat
    decreases fuel,
{
    if fuel == 0 || g.children(x).len() == 0 {
        0
    } else {
        1 + first_child_walk(g, g.children(x)[0], (fuel - 1) as nat)
    }
}

/// How many levels lie between `node` and a root, going down through first
/// children: `-1` when the graph has a cycle.
pub fn distance_to_root_level(g: &LinkedGraph, node: NodeId) -> (r: i32)
    requires
        g@.wf(),
        g@.order.len() <= i32::MAX,
    ensures
        r == if !g@.acyclic() { -1 } else { first_child_walk(g@, node, g@.order.len()) as int },
{
    if graph_has_cycle(g) {
        return -1;
    }
    let len = g.length();
    let mut height: i32 = 0;
    let mut parent_node = node;
    let mut i: usize = 0;
    while i < len
        invariant
            g@.wf(),
            len == g@.order.len(),
            len <= i32::MAX,
            g@.acyclic(),
            i <= len,
            height == i,
            height + first_child_walk(g@, parent_node, (len - i) as nat) == first_child_walk(g@, node, len as nat),
        decreases len - i,
    {
        let children = g.node_children(parent_node);
        if children.len() == 0 {
            return height;
        }
        height = height + 1;
        parent_node = children[0];
        i = i + 1;
    }
    height
}

/// The nodes `d` levels above the nodes of `s`, level by level through the
/// parents, in the order of `s` and of each parent list (with repetitions).
pub open spec fn layer_seq(g: GraphModel, s: Seq<NodeId>, d: nat) -> Seq<NodeId>
    decreases d, s.len(),
{
    if d == 0 {
        s
    } else if s.len() == 0 {
        Seq::empty()
    } else {
        layer_seq(g, s.drop_last(), d) + layer_seq(g, g.parents(s.last()), (d - 1) as nat)
    }
}

/// Below the height of `s`, the layer of `s` holds a node.
pub proof fn lemma_layer_nonempty(g: GraphModel, s: Seq<NodeId>, d: nat, k: nat)
    requires
        d < height_max(g, s, k),
    ensures
        layer_seq(g, s, d).len() > 0,
    decreases d, s.len(),
{
    if s.len() == 0 {
        assert(height_max(g, s, k) == 0);
    } else if d > 0 {
        if height_max(g, s.drop_last(), k) > d {
            lemma_layer_nonempty(g, s.drop_last(), d, k);
        } else {
            assert(height(g, s.last(), k) > d);
            assert(k > 0);
            lemma_layer_nonempty(g, g.parents(s.last()), (d - 1) as nat, (k - 1) as nat);
        }
    }
}

/// The depth of `s` never exceeds its height over walks of `g.len()` nodes.
pub proof fn lemma_max_root_depth_le(g: GraphModel, s: Seq<NodeId>)
    ensures
        max_root_depth(g, s) <= height_max(g, s, g.len()),
    decreases s.len(),
{
    if s.len() > 0 {
        lemma_max_root_depth_le(g, s.drop_last());
    }
}

/// The nodes `layer_number - current_height` levels above `roots`.
fn nodes_from_layer_rec(g: &LinkedGraph, roots: &Vec<NodeId>, current_height: usize, layer_number: usize) -> (r: Vec<
    NodeId,
>)
    requires
        g@.wf(),
        current_height <= layer_number,
        forall|k: int| 0 <= k < roots@.len() ==> (#[trigger] roots@[k]).0 < g@.len(),
    ensures
        r@ == layer_seq(g@, roots@, (layer_number - current_height) as nat),
    decreases layer_number - current_height,
{
    if current_height == layer_number {
        return roots.clone();
    }
    let ghost d = (layer_number - current_height) as nat;
    let mut nodes: Vec<NodeId> = Vec::new();
    let mut i: usize = 0;
    while i < roots.len()
        invariant
            g@.wf(),
            current_height < layer_number,
            d == layer_number - current_height,
            forall|k: int| 0 <= k < roots@.len() ==> (#[trigger] roots@[k]).0 < g@.len(),
            i <= roots@.len(),
            nodes@ == layer_seq(g@, roots@.take(i as int), d),
        decreases roots@.len() - i,
    {
        let root = roots[i];
        let parents = g.parents_of(root).clone();
        proof {
            assert forall|k: int| 0 <= k < parents@.len() implies (#[trigger] parents@[k]).0 < g@.len() by {
                assert(g@.nodes[root.0 as int].parents[k].0 < g@.len());
            }
        }
        let mut above = nodes_from_layer_rec(g, &parents, current_height + 1, layer_number);
        let ghost before = nodes@;
        nodes.append(&mut above);
        proof {
            assert(roots@.take(i + 1).drop_last() =~= roots@.take(i as int));
            assert(roots@.take(i + 1).last() == root);
        }
        i = i + 1;
    }
    proof {
        assert(roots@.take(roots@.len() as int) =~= roots@);
    }
    nodes
}

/// The nodes `layer_number` levels above the roots of the graph.
pub fn nodes_from_layer(g: &LinkedGraph, layer_number: usize) -> (r: Vec<NodeId>)
    requires
        g@.wf(),
    ensures
        r@ == layer_seq(g@, g@.roots(), layer_number as nat),
{
    let roots = g.root_nodes();
    proof {
        assert forall|k: int| 0 <= k < roots@.len() implies (#[trigger] roots@[k]).0 < g@.len() by {
            let x = roots@[k];
            g@.order.lemma_filter_pred(g@.root_pred(), k);
            assert(g@.roots().contains(x));
            lemma_filter_contains_iff(g@.order, g@.root_pred(), x);
            let j = choose|j: int| 0 <= j < g@.order.len() && g@.order[j] == x;
        }
    }
    nodes_from_layer_rec(g, &roots, 0, layer_number)
}

/// The active nodes named `name`, in order.
pub fn get_nodes_by_name(g: &LinkedGraph, name: &str) -> (r: Vec<NodeId>)
    requires
        g@.wf(),
    ensures
        r@ == g@.order.filter(|x: NodeId| g@.nodes[x.0 as int].name == name@),
{
    let ghost pred = |x: NodeId| g@.nodes[x.0 as int].name == name@;
    let target = String::from_str(name);
    let order = g.nodes();
    let mut r: Vec<NodeId> = Vec::new();
    let mut i: usize = 0;
    while i < order.len()
        invariant
            g@.wf(),
            order@ == g@.order,
            target@ == name@,
            pred == (|x: NodeId| g@.nodes[x.0 as int].name == name@),
            i <= order@.len(),
            r@ == order@.take(i as int).filter(pred),
        decreases order@.len() - i,
    {
        let x = order[i];
        proof {
            assert(g@.order[i as int].0 < g@.len());
        }
        let keep = *g.name(x) == target;
        if keep {
            r.push(x);
        }
        proof {
            assert(order@.take(i + 1) =~= order@.take(i as int).push(x));
            order@.take(i as int).lemma_filter_push(x, pred);
        }
        i = i + 1;
    }
    proof {
        assert(order@.take(order@.len() as int) =~= order@);
    }
    r
}

impl GraphModel {
    /// One step of an undirected walk: from an active node to one of its
    /// parents or to one of its active children.
    pub open spec fn linked(self, a: NodeId, b: NodeId) -> bool {
        &&& self.is_active(a)
        &&& self.has_parent(a, b) || (self.is_active(b) && self.has_parent(b, a))
    }

    /// `s` is an undirected walk over arena nodes.
    pub open spec fn is_link_walk(self, s: Seq<NodeId>) -> bool {
        &&& s.len() >= 1
        &&& forall|k: int| 0 <= k < s.len() ==> (#[trigger] s[k]).0 < self.len()
        &&& forall|k: int| 0 <= k < s.len() - 1 ==> #[trigger] self.linked(s[k], s[k + 1])
    }

    /// Some undirected walk leads from `a` to `b`.
    pub open spec fn connected(self, a: NodeId, b: NodeId) -> bool {
        exists|s: Seq<NodeId>| #[trigger] self.is_link_walk(s) && s[0] == a && s.last() == b
    }

    /// The nodes an undirected walk from `a` reaches.
    pub open spec fn component(self, a: NodeId) -> Set<NodeId> {
        Set::new(|b: NodeId| self.connected(a, b))
    }
}

/// Some set of `cs` holds `x`.
pub open spec fn covered(cs: Seq<Set<NodeId>>, x: NodeId) -> bool {
    exists|i: int| 0 <= i < cs.len() && #[trigger] cs[i].contains(x)
}

/// The components met when the nodes of `srcs` are visited in order, each
/// node not yet covered starting a new component.
pub open spec fn components_spec(g: GraphModel, srcs: Seq<NodeId>) -> Seq<Set<NodeId>>
    decreases srcs.len(),
{
    if srcs.len() == 0 {
        Seq::empty()
    } else {
        let prev = components_spec(g, srcs.drop_last());
        if covered(prev, srcs.last()) {
            prev
        } else {
            prev.push(g.component(srcs.last()))
        }
    }
}

/// Adds `y` to `v` unless `seen` marks it, keeping `seen` the mask of `v`.
fn visit(v: &mut Vec<NodeId>, seen: &mut Vec<bool>, y: NodeId)
    requires
        y.0 < old(seen)@.len(),
        old(v)@.no_duplicates(),
        forall|k: int| 0 <= k < old(v)@.len() ==> (#[trigger] old(v)@[k]).0 < old(seen)@.len(),
        forall|i: int| 0 <= i < old(seen)@.len() ==> old(seen)@[i] == old(v)@.contains(NodeId(i as usize)),
    ensures
        final(seen)@.len() == old(seen)@.len(),
        final(v)@.no_duplicates(),
        forall|k: int| 0 <= k < final(v)@.len() ==> (#[trigger] final(v)@[k]).0 < final(seen)@.len(),
        forall|i: int| 0 <= i < final(seen)@.len() ==> final(seen)@[i] == final(v)@.contains(NodeId(i as usize)),
        final(v)@.contains(y),
        old(v)@.contains(y) ==> final(v)@ == old(v)@,
        !old(v)@.contains(y) ==> final(v)@ == old(v)@.push(y),
{
    let n = seen.len();
    if seen[y.0] {
        proof {
            assert(NodeId(y.0 as usize) == y);
        }
        return;
    }
    proof {
        assert(NodeId(y.0 as usize) == y);
    }
    let ghost v1 = v@;
    v.push(y);
    seen.set(y.0, true);
    proof {
        assert(v@.no_duplicates()) by {
            assert forall|a: int, b: int| 0 <= a < b < v@.len() implies v@[a] != v@[b] by {
                if b == v1.len() {
                    assert(v1.contains(v1[a]));
                }
            }
        }
        assert forall|i: int| 0 <= i < n implies seen@[i] == v@.contains(NodeId(i as usize)) by {
            if i == y.0 {
                assert(v@[v1.len() as int] == NodeId(i as usize));
            } else {
                assert(NodeId(i as usize) != y);
                if v@.contains(NodeId(i as usize)) {
                    let q = choose|q: int| 0 <= q < v@.len() && v@[q] == NodeId(i as usize);
                    assert(v1[q] == NodeId(i as usize));
                }
                if v1.contains(NodeId(i as usize)) {
                    let q = choose|q: int| 0 <= q < v1.len() && v1[q] == NodeId(i as usize);
                    assert(v@[q] == NodeId(i as usize));
                }
            }
        }
        assert(v@[v1.len() as int] == y);
    }
}

/// A walk to `x` extends by one more link.
proof fn lemma_connected_step(g: GraphModel, a: NodeId, x: NodeId, y: NodeId)
    requires
        g.connected(a, x),
        g.linked(x, y),
        y.0 < g.len(),
    ensures
        g.connected(a, y),
{
    let s = choose|s: Seq<NodeId>| #[trigger] g.is_link_walk(s) && s[0] == a && s.last() == x;
    let t = s.push(y);
    assert forall|k: int| 0 <= k < t.len() - 1 implies #[trigger] g.linked(t[k], t[k + 1]) by {
        if k < s.len() - 1 {
            assert(t[k] == s[k] && t[k + 1] == s[k + 1]);
        } else {
            assert(t[k] == x);
        }
    }
    assert(g.is_link_walk(t));
}

/// A set closed under links that holds the start of a walk holds its first
/// `k + 1` nodes.
proof fn lemma_closed_walk(g: GraphModel, v: Seq<NodeId>, s: Seq<NodeId>, k: int)
    requires
        g.is_link_walk(s),
        v.contains(s[0]),
        forall|x: NodeId, y: NodeId| v.contains(x) && #[trigger] g.linked(x, y) ==> v.contains(y),
        0 <= k < s.len(),
    ensures
        v.contains(s[k]),
    decreases k,
{
    if k > 0 {
        lemma_closed_walk(g, v, s, k - 1);
        assert(g.linked(s[k - 1], s[(k - 1) + 1]));
    }
}

/// A set closed under links holds every node connected to one of its members.
proof fn lemma_closed_connected(g: GraphModel, v: Seq<NodeId>, a: NodeId, b: NodeId)
    requires
        v.contains(a),
        forall|x: NodeId, y: NodeId| v.contains(x) && #[trigger] g.linked(x, y) ==> v.contains(y),
        g.connected(a, b),
    ensures
        v.contains(b),
{
    let s = choose|s: Seq<NodeId>| #[trigger] g.is_link_walk(s) && s[0] == a && s.last() == b;
    lemma_closed_walk(g, v, s, s.len() - 1);
}

/// The nodes connected to `source`: `source` first, then the others in the
/// order a breadth-first search meets them.
pub fn connected_nodes(g: &LinkedGraph, source: NodeId) -> (r: Vec<NodeId>)
    requires
        g@.wf(),
        source.0 < g@.len(),
    ensures
        r@.no_duplicates(),
        r@.len() >= 1 && r@[0] == source,
        forall|x: NodeId| r@.contains(x) <==> g@.connected(source, x),
        forall|k: int| 0 <= k < r@.len() ==> (#[trigger] r@[k]).0 < g@.len(),
{
    let n = g.arena_len();
    let active = active_mask(g);
    let mut seen: Vec<bool> = Vec::new();
    let mut i: usize = 0;
    while i < n
        invariant
            n == g@.len(),
            i <= n,
            seen@.len() == i,
            forall|k: int| 0 <= k < i ==> !seen@[k],
        decreases n - i,
    {
        seen.push(false);
        i = i + 1;
    }
    let mut v: Vec<NodeId> = Vec::new();
    proof {
        assert forall|i: int| 0 <= i < n implies seen@[i] == v@.contains(NodeId(i as usize)) by {}
    }
    visit(&mut v, &mut seen, source);
    proof {
        let s = seq![source];
        assert(g@.is_link_walk(s));
        assert(v@ == seq![source]);
    }
    let mut head: usize = 0;
    while head < v.len()
        invariant
            g@.wf(),
            n == g@.len(),
            seen@.len() == n,
            active@.len() == n,
            forall|i: int| 0 <= i < n ==> active@[i] == g@.is_active(NodeId(i as usize)),
            head <= v@.len(),
            v@.len() >= 1 && v@[0] == source,
            v@.no_duplicates(),
            forall|k: int| 0 <= k < v@.len() ==> (#[trigger] v@[k]).0 < n,
            forall|i: int| 0 <= i < n ==> seen@[i] == v@.contains(NodeId(i as usize)),
            forall|k: int| 0 <= k < v@.len() ==> g@.connected(source, #[trigger] v@[k]),
            forall|k: int, y: NodeId| 0 <= k < head && #[trigger] g@.linked(v@[k], y) ==> v@.contains(y),
        decreases n - head,
    {
        proof {
            lemma_nodup_bounded(v@, n as nat);
        }
        let x = v[head];
        let ghost vh = v@;
        if active[x.0] {
            proof {
                assert(NodeId(x.0 as usize) == x);
            }
            let ps = g.parents_of(x);
            let mut j: usize = 0;
            while j < ps.len()
                invariant
                    g@.wf(),
                    n == g@.len(),
                    seen@.len() == n,
                    x == vh[head as int],
                    head < vh.len(),
                    g@.is_active(x),
                    x.0 < n,
                    ps@ == g@.parents(x),
                    j <= ps@.len(),
                    v@.len() >= 1 && v@[0] == source,
                    v@.no_duplicates(),
                    vh.len() <= v@.len(),
                    forall|k: int| 0 <= k < vh.len() ==> v@[k] == vh[k],
                    forall|k: int| 0 <= k < v@.len() ==> (#[trigger] v@[k]).0 < n,
                    forall|i: int| 0 <= i < n ==> seen@[i] == v@.contains(NodeId(i as usize)),
                    forall|k: int| 0 <= k < v@.len() ==> g@.connected(source, #[trigger] v@[k]),
                    forall|t: int| 0 <= t < j ==> v@.contains(#[trigger] ps@[t]),
                decreases ps@.len() - j,
            {
                let p = ps[j];
                proof {
                    assert(g@.nodes[x.0 as int].parents[j as int].0 < n);
                    assert(g@.has_parent(x, p)) by {
                        assert(g@.parents(x)[j as int] == p);
                    }
                    assert(g@.connected(source, vh[head as int]));
                    lemma_connected_step(g@, source, x, p);
                }
                let ghost v1 = v@;
                visit(&mut v, &mut seen, p);
                proof {
                    assert forall|k: int| 0 <= k < v@.len() implies g@.connected(source, #[trigger] v@[k]) by {
                        if k < v1.len() {
                            assert(v@[k] == v1[k]);
                        }
                    }
                    assert forall|t: int| 0 <= t < j + 1 implies v@.contains(#[trigger] ps@[t]) by {
                        if t < j {
                            let q = choose|q: int| 0 <= q < v1.len() && v1[q] == ps@[t];
                            assert(v@[q] == ps@[t]);
                        }
                    }
                }
                j = j + 1;
            }
            let ch = g.node_children(x);
            let mut j: usize = 0;
            while j < ch.len()
                invariant
                    g@.wf(),
                    n == g@.len(),
                    seen@.len() == n,
                    x == vh[head as int],
                    head < vh.len(),
                    g@.is_active(x),
                    x.0 < n,
                    ch@ == g@.children(x),
                    j <= ch@.len(),
                    v@.len() >= 1 && v@[0] == source,
                    v@.no_duplicates(),
                    vh.len() <= v@.len(),
                    forall|k: int| 0 <= k < vh.len() ==> v@[k] == vh[k],
                    forall|k: int| 0 <= k < v@.len() ==> (#[trigger] v@[k]).0 < n,
                    forall|i: int| 0 <= i < n ==> seen@[i] == v@.contains(NodeId(i as usize)),
                    forall|k: int| 0 <= k < v@.len() ==> g@.connected(source, #[trigger] v@[k]),
                    forall|t: int| 0 <= t < ps@.len() ==> v@.contains(#[trigger] ps@[t]),
                    ps@ == g@.parents(x),
                    forall|t: int| 0 <= t < j ==> v@.contains(#[trigger] ch@[t]),
                decreases ch@.len() - j,
            {
                let c = ch[j];
                proof {
                    g@.order.lemma_filter_pred(g@.child_pred(x), j as int);
                    assert(g@.children(x).contains(c)) by {
                        assert(g@.children(x)[j as int] == c);
                    }
                    lemma_filter_contains_iff(g@.order, g@.child_pred(x), c);
                    let q = choose|q: int| 0 <= q < g@.order.len() && g@.order[q] == c;
                    assert(g@.order[q].0 < n);
                    assert(g@.linked(x, c));
                    assert(g@.connected(source, vh[head as int]));
                    lemma_connected_step(g@, source, x, c);
                }
                let ghost v1 = v@;
                visit(&mut v, &mut seen, c);
                proof {
                    assert forall|k: int| 0 <= k < v@.len() implies g@.connected(source, #[trigger] v@[k]) by {
                        if k < v1.len() {
                            assert(v@[k] == v1[k]);
                        }
                    }
                    assert forall|t: int| 0 <= t < j + 1 implies v@.contains(#[trigger] ch@[t]) by {
                        if t < j {
                            let q = choose|q: int| 0 <= q < v1.len() && v1[q] == ch@[t];
                            assert(v@[q] == ch@[t]);
                        }
                    }
                    assert forall|t: int| 0 <= t < ps@.len() implies v@.contains(#[trigger] ps@[t]) by {
                        let q = choose|q: int| 0 <= q < v1.len() && v1[q] == ps@[t];
                        assert(v@[q] == ps@[t]);
                    }
                }
                j = j + 1;
            }
            proof {
                assert forall|y: NodeId| #[trigger] g@.linked(x, y) implies v@.contains(y) by {
                    if g@.has_parent(x, y) {
                        let t = choose|t: int| 0 <= t < g@.parents(x).len() && g@.parents(x)[t] == y;
                        assert(v@.contains(ps@[t]));
                    } else {
                        lemma_filter_contains_iff(g@.order, g@.child_pred(x), y);
                        let t = choose|t: int| 0 <= t < ch@.len() && ch@[t] == y;
                        assert(v@.contains(ch@[t]));
                    }
                }
            }
        } else {
            proof {
                assert(NodeId(x.0 as usize) == x);
            }
        }
        proof {
            assert forall|k: int, y: NodeId| 0 <= k < head + 1 && #[trigger] g@.linked(v@[k], y) implies v@.contains(y) by {
                if k < head {
                    assert(v@[k] == vh[k]);
                    assert(vh.contains(y)) by {
                        assert(g@.linked(vh[k], y));
                    }
                    let q = choose|q: int| 0 <= q < vh.len() && vh[q] == y;
                    assert(v@[q] == y);
                } else {
                    assert(v@[k] == x);
                }
            }
        }
        head = head + 1;
    }
    proof {
        assert forall|x: NodeId| g@.connected(source, x) implies v@.contains(x) by {
            assert(v@.contains(source)) by {
                assert(v@[0] == source);
            }
            assert forall|a: NodeId, b: NodeId| v@.contains(a) && #[trigger] g@.linked(a, b) implies v@.contains(b) by {
                let k = choose|k: int| 0 <= k < v@.len() && v@[k] == a;
            }
            lemma_closed_connected(g@, v@, source, x);
        }
        assert forall|x: NodeId| v@.contains(x) implies g@.connected(source, x) by {
            let k = choose|k: int| 0 <= k < v@.len() && v@[k] == x;
        }
    }
    v
}

/// `r` lists the sets of `cs`, in order, each without repetitions.
pub open spec fn lists_sets(r: Seq<Vec<NodeId>>, cs: Seq<Set<NodeId>>) -> bool {
    &&& r.len() == cs.len()
    &&& forall|k: int| 0 <= k < r.len() ==> (#[trigger] r[k])@.no_duplicates()
    &&& forall|k: int, y: NodeId| 0 <= k < r.len() ==> (#[trigger] r[k]@.contains(y) <==> cs[k].contains(y))
}

/// The components met when the nodes of `srcs` are visited in order.
fn components_of(g: &LinkedGraph, srcs: &[NodeId]) -> (r: Vec<Vec<NodeId>>)
    requires
        g@.wf(),
        forall|k: int| 0 <= k < srcs@.len() ==> (#[trigger] srcs@[k]).0 < g@.len(),
    ensures
        lists_sets(r@, components_spec(g@, srcs@)),
{
    let n = g.arena_len();
    let mut visited: Vec<bool> = Vec::new();
    let mut i: usize = 0;
    while i < n
        invariant
            n == g@.len(),
            i <= n,
            visited@.len() == i,
            forall|k: int| 0 <= k < i ==> !visited@[k],
        decreases n - i,
    {
        visited.push(false);
        i = i + 1;
    }
    let mut comps: Vec<Vec<NodeId>> = Vec::new();
    let mut i: usize = 0;
    while i < srcs.len()
        invariant
            g@.wf(),
            n == g@.len(),
            forall|k: int| 0 <= k < srcs@.len() ==> (#[trigger] srcs@[k]).0 < n,
            i <= srcs@.len(),
            visited@.len() == n,
            lists_sets(comps@, components_spec(g@, srcs@.take(i as int))),
            forall|j: int| 0 <= j < n ==> visited@[j] == covered(components_spec(g@, srcs@.take(i as int)), NodeId(j as usize)),
        decreases srcs@.len() - i,
    {
        let x = srcs[i];
        let ghost cs = components_spec(g@, srcs@.take(i as int));
        proof {
            assert(srcs@.take(i + 1).drop_last() =~= srcs@.take(i as int));
            assert(srcs@.take(i + 1).last() == x);
            assert(NodeId(x.0 as usize) == x);
        }
        if !visited[x.0] {
            let comp = connected_nodes(g, x);
            let mut k: usize = 0;
            while k < comp.len()
                invariant
                    n == g@.len(),
                    visited@.len() == n,
                    forall|t: int| 0 <= t < comp@.len() ==> (#[trigger] comp@[t]).0 < n,
                    k <= comp@.len(),
                    forall|j: int|
                        0 <= j < n ==> visited@[j] == (covered(cs, NodeId(j as usize)) || comp@.take(k as int).contains(
                            NodeId(j as usize),
                        )),
                decreases comp@.len() - k,
            {
                let y = comp[k];
                visited.set(y.0, true);
                proof {
                    let t = comp@.take(k as int);
                    assert(comp@.take(k + 1) =~= t.push(y));
                    assert forall|j: int| 0 <= j < n implies visited@[j] == (covered(cs, NodeId(j as usize))
                        || t.push(y).contains(NodeId(j as usize))) by {
                        if t.push(y).contains(NodeId(j as usize)) && !t.contains(NodeId(j as usize)) {
                            let q = choose|q: int| 0 <= q < t.len() + 1 && t.push(y)[q] == NodeId(j as usize);
                            if q < t.len() {
                                assert(t[q] == NodeId(j as usize));
                            }
                        }
                        if t.contains(NodeId(j as usize)) {
                            let q = choose|q: int| 0 <= q < t.len() && t[q] == NodeId(j as usize);
                            assert(t.push(y)[q] == NodeId(j as usize));
                        }
                        if j == y.0 {
                            assert(t.push(y)[t.len() as int] == y);
                        }
                    }
                }
                k = k + 1;
            }
            let ghost c = g@.component(x);
            let ghost cv = comp@;
            proof {
                assert(comp@.take(comp@.len() as int) =~= comp@);
                assert(!covered(cs, x));
                assert(components_spec(g@, srcs@.take(i + 1)) == cs.push(c));
                assert forall|j: int| 0 <= j < n implies visited@[j] == covered(cs.push(c), NodeId(j as usize)) by {
                    let y = NodeId(j as usize);
                    if covered(cs, y) {
                        let q = choose|q: int| 0 <= q < cs.len() && #[trigger] cs[q].contains(y);
                        assert(cs.push(c)[q] == cs[q]);
                    }
                    if comp@.contains(y) {
                        assert(g@.connected(x, y));
                        assert(cs.push(c)[cs.len() as int].contains(y));
                    }
                    if covered(cs.push(c), y) {
                        let q = choose|q: int| 0 <= q < cs.push(c).len() && #[trigger] cs.push(c)[q].contains(y);
                        if q < cs.len() {
                            assert(cs[q].contains(y));
                        } else {
                            assert(c.contains(y));
                            assert(g@.connected(x, y));
                        }
                    }
                }
            }
            let ghost before = comps@;
            comps.push(comp);
            proof {
                assert forall|k2: int| 0 <= k2 < comps@.len() implies (#[trigger] comps@[k2])@.no_duplicates() by {
                    if k2 < before.len() {
                        assert(comps@[k2] == before[k2]);
                    }
                }
                assert forall|k2: int, y: NodeId| 0 <= k2 < comps@.len() implies (#[trigger] comps@[k2]@.contains(y)
                    <==> cs.push(c)[k2].contains(y)) by {
                    if k2 < before.len() {
                        assert(comps@[k2] == before[k2]);
                        assert(before[k2]@.contains(y) <==> cs[k2].contains(y));
                    } else {
                        assert(comps@[k2]@ == cv);
                    }
                }
            }
        } else {
            proof {
                assert(covered(cs, x));
                assert(components_spec(g@, srcs@.take(i + 1)) == cs);
            }
        }
        i = i + 1;
    }
    proof {
        assert(srcs@.take(srcs@.len() as int) =~= srcs@);
    }
    comps
}

/// The connected components of the graph, ignoring edge directions, met
/// while visiting `nodes` (all active nodes when `None`) in order.
pub fn get_connected_components(g: &LinkedGraph, nodes: Option<&[NodeId]>) -> (r: Vec<Vec<NodeId>>)
    requires
        g@.wf(),
        nodes is Some ==> forall|k: int| 0 <= k < nodes->0@.len() ==> (#[trigger] nodes->0@[k]).0 < g@.len(),
    ensures
        lists_sets(
            r@,
            components_spec(
                g@,
                match nodes {
                    Some(ns) => ns@,
                    None => g@.order,
                },
            ),
        ),
{
    match nodes {
        Some(ns) => components_of(g, ns),
        None => {
            let all = g.nodes();
            proof {
                assert forall|k: int| 0 <= k < all@.len() implies (#[trigger] all@[k]).0 < g@.len() by {
                    assert(g@.order[k].0 < g@.len());
                }
            }
            components_of(g, all.as_slice())
        },
    }
}

/// The neighbours a path search looks at from `x`: its parents, then its
/// children.
pub open spec fn path_neighbours(g: GraphModel, x: NodeId) -> Seq<NodeId> {
    g.parents(x) + g.children(x)
}

/// The simple paths to `target` that extend `path` through the nodes of
/// `nbrs`, taken from the last to the first, each path searched depth first;
/// `fuel` bounds how many more nodes a path may take.
pub open spec fn paths_through(g: GraphModel, path: Seq<NodeId>, nbrs: Seq<NodeId>, target: NodeId, fuel: nat) -> Seq<
    Seq<NodeId>,
>
    decreases fuel, nbrs.len(),
{
    if nbrs.len() == 0 {
        Seq::empty()
    } else {
        let n = nbrs.last();
        let here = if !g.is_active(n) || path.contains(n) {
            Seq::empty()
        } else if n == target {
            seq![path.push(n)]
        } else if fuel == 0 {
            Seq::empty()
        } else {
            paths_through(g, path.push(n), path_neighbours(g, n), target, (fuel - 1) as nat)
        };
        here + paths_through(g, path, nbrs.drop_last(), target, fuel)
    }
}

/// The edges `(p[k], p[k + 1])` along the path `p`.
pub open spec fn path_edges(p: Seq<NodeId>) -> Seq<(NodeId, NodeId)> {
    if p.len() == 0 {
        Seq::empty()
    } else {
        Seq::new((p.len() - 1) as nat, |k: int| (p[k], p[k + 1]))
    }
}

/// The simple paths from `source` to `target`, ignoring edge directions.
pub open spec fn all_simple_paths(g: GraphModel, source: NodeId, target: NodeId) -> Seq<Seq<NodeId>> {
    let first = crate::dag::linked_graph::dedup(g.parents(source) + g.children(source));
    paths_through(g, seq![source], first, target, g.len())
}

/// Searches the paths through the nodes of `nbrs`, from the last to the
/// first, and appends each one found to `out`.
fn paths_through_exec(
    g: &LinkedGraph,
    active: &Vec<bool>,
    path: &mut Vec<NodeId>,
    nbrs: &Vec<NodeId>,
    target: NodeId,
    fuel: usize,
    out: &mut Vec<Vec<NodeId>>,
)
    requires
        g@.wf(),
        active@.len() == g@.len(),
        forall|i: int| 0 <= i < active@.len() ==> active@[i] == g@.is_active(NodeId(i as usize)),
        forall|k: int| 0 <= k < nbrs@.len() ==> (#[trigger] nbrs@[k]).0 < g@.len(),
    ensures
        final(path)@ == old(path)@,
        final(out)@.map_values(|v: Vec<NodeId>| v@) == old(out)@.map_values(|v: Vec<NodeId>| v@) + paths_through(
            g@,
            old(path)@,
            nbrs@,
            target,
            fuel as nat,
        ),
    decreases fuel, nbrs@.len(),
{
    let ghost p0 = path@;
    let ghost o0 = out@.map_values(|v: Vec<NodeId>| v@);
    let mut i: usize = nbrs.len();
    proof {
        assert(nbrs@.take(nbrs@.len() as int) =~= nbrs@);
    }
    while i > 0
        invariant
            g@.wf(),
            active@.len() == g@.len(),
            forall|t: int| 0 <= t < active@.len() ==> active@[t] == g@.is_active(NodeId(t as usize)),
            forall|k: int| 0 <= k < nbrs@.len() ==> (#[trigger] nbrs@[k]).0 < g@.len(),
            i <= nbrs@.len(),
            path@ == p0,
            p0 == old(path)@,
            o0 == old(out)@.map_values(|v: Vec<NodeId>| v@),
            o0 + paths_through(g@, p0, nbrs@, target, fuel as nat) == out@.map_values(|v: Vec<NodeId>| v@)
                + paths_through(g@, p0, nbrs@.take(i as int), target, fuel as nat),
        decreases i,
    {
        let n = nbrs[i - 1];
        let ghost before = out@.map_values(|v: Vec<NodeId>| v@);
        let ghost pre = nbrs@.take(i as int);
        proof {
            assert(pre.last() == n);
            assert(pre.drop_last() =~= nbrs@.take(i - 1));
            assert(NodeId(n.0 as usize) == n);
        }
        let mut on_path = false;
        let mut k: usize = 0;
        while k < path.len()
            invariant
                k <= path@.len(),
                on_path == path@.take(k as int).contains(n),
            decreases path@.len() - k,
        {
            if path[k] == n {
                on_path = true;
            }
            proof {
                let t = path@.take(k as int);
                let x = path@[k as int];
                assert(path@.take(k + 1) =~= t.push(x));
                if t.push(x).contains(n) && !t.contains(n) {
                    let q = choose|q: int| 0 <= q < t.len() + 1 && t.push(x)[q] == n;
                    if q < t.len() {
                        assert(t[q] == n);
                    }
                }
                if t.contains(n) {
                    let q = choose|q: int| 0 <= q < t.len() && t[q] == n;
                    assert(t.push(x)[q] == n);
                }
                if x == n {
                    assert(t.push(x)[t.len() as int] == n);
                }
            }
            k = k + 1;
        }
        proof {
            assert(path@.take(path@.len() as int) =~= path@);
        }
        if !active[n.0] || on_path {
        } else if n == target {
            let mut found = path.clone();
            found.push(n);
            proof {
                assert(found@ == p0.push(n));
            }
            out.push(found);
            proof {
                assert(out@.map_values(|v: Vec<NodeId>| v@) =~= before + seq![p0.push(n)]);
            }
        } else if fuel > 0 {
            let next = path_neighbours_exec(g, n);
            path.push(n);
            paths_through_exec(g, active, path, &next, target, fuel - 1, out);
            path.pop();
            proof {
                assert(path@ =~= p0);
            }
        }
        proof {
            let here = if !g@.is_active(n) || p0.contains(n) {
                Seq::<Seq<NodeId>>::empty()
            } else if n == target {
                seq![p0.push(n)]
            } else if fuel == 0 {
                Seq::<Seq<NodeId>>::empty()
            } else {
                paths_through(g@, p0.push(n), path_neighbours(g@, n), target, (fuel - 1) as nat)
            };
            assert(paths_through(g@, p0, pre, target, fuel as nat) == here + paths_through(g@, p0, nbrs@.take(i - 1), target, fuel as nat));
            assert(out@.map_values(|v: Vec<NodeId>| v@) =~= before + here);
            assert(before + paths_through(g@, p0, pre, target, fuel as nat) =~= (before + here) + paths_through(
                g@,
                p0,
                nbrs@.take(i - 1),
                target,
                fuel as nat,
            ));
        }
        i = i - 1;
    }
    proof {
        assert(nbrs@.take(0) =~= Seq::<NodeId>::empty());
        assert(o0 + paths_through(g@, p0, nbrs@, target, fuel as nat) =~= out@.map_values(|v: Vec<NodeId>| v@) + Seq::empty());
    }
}

/// The parents of `x`, then its children.
fn path_neighbours_exec(g: &LinkedGraph, x: NodeId) -> (r: Vec<NodeId>)
    requires
        g@.wf(),
        x.0 < g@.len(),
    ensures
        r@ == path_neighbours(g@, x),
        forall|k: int| 0 <= k < r@.len() ==> (#[trigger] r@[k]).0 < g@.len(),
{
    let mut r = g.parents_of(x).clone();
    let mut ch = g.node_children(x);
    proof {
        assert forall|k: int| 0 <= k < ch@.len() implies (#[trigger] ch@[k]).0 < g@.len() by {
            let c = ch@[k];
            g@.order.lemma_filter_pred(g@.child_pred(x), k);
            assert(g@.children(x).contains(c));
            crate::dag::linked_graph::lemma_filter_contains_iff(g@.order, g@.child_pred(x), c);
            let j = choose|j: int| 0 <= j < g@.order.len() && g@.order[j] == c;
        }
        assert forall|k: int| 0 <= k < r@.len() implies (#[trigger] r@[k]).0 < g@.len() by {
            assert(g@.nodes[x.0 as int].parents[k].0 < g@.len());
        }
    }
    let ghost r0 = r@;
    r.append(&mut ch);
    proof {
        assert(r@ == r0 + g@.children(x));
        assert forall|k: int| 0 <= k < r@.len() implies (#[trigger] r@[k]).0 < g@.len() by {
            if k < r0.len() {
                assert(r@[k] == r0[k]);
            } else {
                assert(r@[k] == g@.children(x)[k - r0.len()]);
            }
        }
    }
    r
}

/// Every simple path from `source` to `target`, ignoring edge directions,
/// as its list of edges `(node, next node)`.
pub fn get_all_simple_paths(g: &LinkedGraph, source: NodeId, target: NodeId) -> (r: Vec<Vec<(NodeId, NodeId)>>)
    requires
        g@.wf(),
        source.0 < g@.len(),
    ensures
        r@.len() == all_simple_paths(g@, source, target).len(),
        forall|k: int| 0 <= k < r@.len() ==> (#[trigger] r@[k])@ == path_edges(all_simple_paths(g@, source, target)[k]),
{
    let active = active_mask(g);
    let both = path_neighbours_exec(g, source);
    let first = crate::dag::linked_graph::vec_dedup(&both);
    let mut path: Vec<NodeId> = Vec::new();
    path.push(source);
    let mut node_paths: Vec<Vec<NodeId>> = Vec::new();
    proof {
        assert(path@ =~= seq![source]);
        assert forall|k: int| 0 <= k < first@.len() implies (#[trigger] first@[k]).0 < g@.len() by {
            crate::dag::linked_graph::lemma_dedup(both@);
            assert(both@.contains(first@[k]));
            let j = choose|j: int| 0 <= j < both@.len() && both@[j] == first@[k];
        }
        assert(node_paths@.map_values(|v: Vec<NodeId>| v@) =~= Seq::<Seq<NodeId>>::empty());
    }
    paths_through_exec(g, &active, &mut path, &first, target, g.arena_len(), &mut node_paths);
    let ghost all = all_simple_paths(g@, source, target);
    proof {
        assert(node_paths@.map_values(|v: Vec<NodeId>| v@) =~= all);
    }
    let mut r: Vec<Vec<(NodeId, NodeId)>> = Vec::new();
    let mut i: usize = 0;
    while i < node_paths.len()
        invariant
            all == node_paths@.map_values(|v: Vec<NodeId>| v@),
            i <= node_paths@.len(),
            r@.len() == i,
            forall|k: int| 0 <= k < i ==> (#[trigger] r@[k])@ == path_edges(all[k]),
        decreases node_paths@.len() - i,
    {
        let p = &node_paths[i];
        let mut edges: Vec<(NodeId, NodeId)> = Vec::new();
        let mut k: usize = 0;
        if p.len() > 0 {
            while k < p.len() - 1
                invariant
                    p@.len() > 0,
                    k + 1 <= p@.len(),
                    edges@ == path_edges(p@).take(k as int),
                decreases p@.len() - k,
            {
                edges.push((p[k], p[k + 1]));
                proof {
                    assert(path_edges(p@).take(k + 1) =~= path_edges(p@).take(k as int).push((p@[k as int], p@[k + 1])));
                }
                k = k + 1;
            }
            proof {
                assert(path_edges(p@).take(k as int) =~= path_edges(p@));
            }
        } else {
            proof {
                assert(path_edges(p@) =~= Seq::<(NodeId, NodeId)>::empty());
            }
        }
        proof {
            assert(all[i as int] == p@);
        }
        r.push(edges);
        proof {
            assert forall|t: int| 0 <= t < i + 1 implies (#[trigger] r@[t])@ == path_edges(all[t]) by {}
        }
        i = i + 1;
    }
    r
}

/// `a` and `b` are joined by a link, in either direction.
pub open spec fn linked(g: GraphModel, a: NodeId, b: NodeId) -> bool {
    g.has_parent(a, b) || g.has_parent(b, a)
}

/// `p` is a simple path from `s` to `t`: it starts at `s`, ends at `t`, meets
/// no node twice, passes only active nodes after `s` and joins each node to
/// the next by a link.
pub open spec fn is_simple_path(g: GraphModel, p: Seq<NodeId>, s: NodeId, t: NodeId) -> bool {
    &&& p.len() >= 2
    &&& p[0] == s
    &&& p.last() == t
    &&& p.no_duplicates()
    &&& forall|k: int| 1 <= k < p.len() ==> g.is_active(#[trigger] p[k])
    &&& forall|k: int| 0 <= k < p.len() - 1 ==> #[trigger] linked(g, p[k], p[k + 1])
}

/// Every path the search finds from `path` through `nbrs` extends `path`
/// without meeting a node twice, through active nodes joined by links, up to
/// `target`.
proof fn lemma_paths_sound(g: GraphModel, path: Seq<NodeId>, nbrs: Seq<NodeId>, target: NodeId, fuel: nat)
    requires
        g.wf(),
        path.len() >= 1,
        path.no_duplicates(),
        forall|k: int| 1 <= k < path.len() ==> g.is_active(#[trigger] path[k]),
        forall|k: int| 0 <= k < path.len() - 1 ==> #[trigger] linked(g, path[k], path[k + 1]),
        forall|j: int| 0 <= j < nbrs.len() ==> #[trigger] linked(g, path.last(), nbrs[j]),
    ensures
        forall|k: int|
            0 <= k < paths_through(g, path, nbrs, target, fuel).len() ==> {
                let q = #[trigger] paths_through(g, path, nbrs, target, fuel)[k];
                &&& q.len() > path.len()
                &&& q.take(path.len() as int) == path
                &&& q.last() == target
                &&& q.no_duplicates()
                &&& forall|i: int| 1 <= i < q.len() ==> g.is_active(#[trigger] q[i])
                &&& forall|i: int| 0 <= i < q.len() - 1 ==> #[trigger] linked(g, q[i], q[i + 1])
            },
    decreases fuel, nbrs.len(),
{
    if nbrs.len() > 0 {
        let n = nbrs.last();
        assert(linked(g, path.last(), nbrs[nbrs.len() - 1]));
        lemma_paths_sound(g, path, nbrs.drop_last(), target, fuel);
        let rest = paths_through(g, path, nbrs.drop_last(), target, fuel);
        let p2 = path.push(n);
        let here = if !g.is_active(n) || path.contains(n) {
            Seq::empty()
        } else if n == target {
            seq![p2]
        } else if fuel == 0 {
            Seq::empty()
        } else {
            paths_through(g, p2, path_neighbours(g, n), target, (fuel - 1) as nat)
        };
        if g.is_active(n) && !path.contains(n) {
            assert(p2.no_duplicates()) by {
                assert forall|a: int, b: int| 0 <= a < b < p2.len() implies p2[a] != p2[b] by {
                    if b == path.len() {
                        assert(p2[a] == path[a]);
                    }
                }
            }
            assert forall|k: int| 1 <= k < p2.len() implies g.is_active(#[trigger] p2[k]) by {
                if k < path.len() {
                    assert(p2[k] == path[k]);
                }
            }
            assert forall|k: int| 0 <= k < p2.len() - 1 implies #[trigger] linked(g, p2[k], p2[k + 1]) by {
                if k < path.len() - 1 {
                    assert(p2[k] == path[k] && p2[k + 1] == path[k + 1]);
                } else {
                    assert(p2[k] == path.last() && p2[k + 1] == n);
                }
            }
            if n != target && fuel > 0 {
                let nb = path_neighbours(g, n);
                assert forall|j: int| 0 <= j < nb.len() implies #[trigger] linked(g, p2.last(), nb[j]) by {
                    if j < g.parents(n).len() {
                        assert(nb[j] == g.parents(n)[j]);
                        assert(g.has_parent(n, nb[j]));
                    } else {
                        let c = nb[j];
                        assert(c == g.children(n)[j - g.parents(n).len()]);
                        g.order.lemma_filter_pred(g.child_pred(n), j - g.parents(n).len());
                    }
                }
                lemma_paths_sound(g, p2, nb, target, (fuel - 1) as nat);
            }
        }
        let all = paths_through(g, path, nbrs, target, fuel);
        assert(all == here + rest);
        assert forall|k: int| 0 <= k < all.len() implies {
            let q = #[trigger] all[k];
            &&& q.len() > path.len()
            &&& q.take(path.len() as int) == path
            &&& q.last() == target
            &&& q.no_duplicates()
            &&& forall|i: int| 1 <= i < q.len() ==> g.is_active(#[trigger] q[i])
            &&& forall|i: int| 0 <= i < q.len() - 1 ==> #[trigger] linked(g, q[i], q[i + 1])
        } by {
            let q = all[k];
            if k < here.len() {
                assert(q == here[k]);
                if n == target {
                    assert(q == p2);
                    assert(q.take(path.len() as int) =~= path);
                } else {
                    assert(q.take(p2.len() as int) == p2);
                    assert(q.take(path.len() as int) =~= p2.take(path.len() as int));
                }
            } else {
                assert(q == rest[k - here.len()]);
            }
        }
    }
}

/// Every path that the simple-path search returns is a simple path from
/// `source` to `target`.
pub proof fn law_simple_paths_sound(g: GraphModel, source: NodeId, target: NodeId)
    requires
        g.wf(),
    ensures
        forall|k: int|
            0 <= k < all_simple_paths(g, source, target).len() ==> is_simple_path(
                g,
                #[trigger] all_simple_paths(g, source, target)[k],
                source,
                target,
            ),
{
    let both = g.parents(source) + g.children(source);
    let first = crate::dag::linked_graph::dedup(both);
    crate::dag::linked_graph::lemma_dedup(both);
    let path = seq![source];
    assert forall|j: int| 0 <= j < first.len() implies #[trigger] linked(g, path.last(), first[j]) by {
        assert(first.contains(first[j]));
        assert(both.contains(first[j]));
        let i = choose|i: int| 0 <= i < both.len() && both[i] == first[j];
        if i < g.parents(source).len() {
            assert(g.parents(source)[i] == first[j]);
            assert(g.has_parent(source, first[j]));
        } else {
            assert(g.children(source)[i - g.parents(source).len()] == first[j]);
            g.order.lemma_filter_pred(g.child_pred(source), i - g.parents(source).len());
        }
    }
    assert(path.no_duplicates());
    lemma_paths_sound(g, path, first, target, g.len());
    assert forall|k: int| 0 <= k < all_simple_paths(g, source, target).len() implies is_simple_path(
        g,
        #[trigger] all_simple_paths(g, source, target)[k],
        source,
        target,
    ) by {
        let q = all_simple_paths(g, source, target)[k];
        assert(q[0] == q.take(1)[0]);
    }
}

/// A path found from `path` through `nbrs` extends `path` by an active node
/// of `nbrs`.
pub proof fn lemma_paths_extend(g: GraphModel, path: Seq<NodeId>, nbrs: Seq<NodeId>, target: NodeId, fuel: nat)
    ensures
        forall|k: int|
            0 <= k < paths_through(g, path, nbrs, target, fuel).len() ==> {
                let q = #[trigger] paths_through(g, path, nbrs, target, fuel)[k];
                &&& q.len() > path.len()
                &&& q.take(path.len() as int) == path
                &&& nbrs.contains(q[path.len() as int])
                &&& g.is_active(q[path.len() as int])
            },
    decreases fuel, nbrs.len(),
{
    if nbrs.len() > 0 {
        let n = nbrs.last();
        lemma_paths_extend(g, path, nbrs.drop_last(), target, fuel);
        let rest = paths_through(g, path, nbrs.drop_last(), target, fuel);
        let here = if !g.is_active(n) || path.contains(n) {
            Seq::empty()
        } else if n == target {
            seq![path.push(n)]
        } else if fuel == 0 {
            Seq::empty()
        } else {
            paths_through(g, path.push(n), path_neighbours(g, n), target, (fuel - 1) as nat)
        };
        if g.is_active(n) && !path.contains(n) && n != target && fuel > 0 {
            lemma_paths_extend(g, path.push(n), path_neighbours(g, n), target, (fuel - 1) as nat);
        }
        let all = paths_through(g, path, nbrs, target, fuel);
        assert(all == here + rest);
        assert forall|k: int| 0 <= k < all.len() implies {
            let q = #[trigger] all[k];
            &&& q.len() > path.len()
            &&& q.take(path.len() as int) == path
            &&& nbrs.contains(q[path.len() as int])
            &&& g.is_active(q[path.len() as int])
        } by {
            let q = all[k];
            if k < here.len() {
                assert(q == here[k]);
                if n == target {
                    assert(q == path.push(n));
                    assert(q.take(path.len() as int) =~= path);
                } else {
                    assert(q.take(path.len() as int + 1) == path.push(n));
                    assert(q.take(path.len() as int) =~= path.push(n).take(path.len() as int));
                    assert(q[path.len() as int] == q.take(path.len() as int + 1)[path.len() as int]);
                }
                assert(nbrs[nbrs.len() - 1] == n);
            } else {
                assert(q == rest[k - here.len()]);
                let j = choose|j: int| 0 <= j < nbrs.drop_last().len() && nbrs.drop_last()[j] == q[path.len() as int];
                assert(nbrs[j] == q[path.len() as int]);
            }
        }
    }
}

/// No node is listed twice among the parents and active children of `x`.
pub open spec fn neighbours_distinct(g: GraphModel, x: NodeId) -> bool {
    path_neighbours(g, x).no_duplicates()
}

/// Joining two lists without repeats that share no element gives a list
/// without repeats.
proof fn lemma_concat_no_dup(a: Seq<Seq<NodeId>>, b: Seq<Seq<NodeId>>)
    requires
        a.no_duplicates(),
        b.no_duplicates(),
        forall|i: int, j: int| 0 <= i < a.len() && 0 <= j < b.len() ==> a[i] != b[j],
    ensures
        (a + b).no_duplicates(),
{
    assert forall|i: int, j: int| 0 <= i < j < (a + b).len() implies (a + b)[i] != (a + b)[j] by {
        if j < a.len() {
            assert((a + b)[i] == a[i] && (a + b)[j] == a[j]);
        } else if i >= a.len() {
            assert((a + b)[i] == b[i - a.len()] && (a + b)[j] == b[j - a.len()]);
        } else {
            assert((a + b)[i] == a[i] && (a + b)[j] == b[j - a.len()]);
        }
    }
}

/// The search from `path` through distinct `nbrs` finds no path twice, when
/// no node lists another twice among its neighbours.
proof fn lemma_paths_unique(g: GraphModel, path: Seq<NodeId>, nbrs: Seq<NodeId>, target: NodeId, fuel: nat)
    requires
        g.wf(),
        nbrs.no_duplicates(),
        forall|k: int| 0 <= k < nbrs.len() ==> (#[trigger] nbrs[k]).0 < g.len(),
        forall|x: NodeId| x.0 < g.len() ==> #[trigger] neighbours_distinct(g, x),
    ensures
        paths_through(g, path, nbrs, target, fuel).no_duplicates(),
    decreases fuel, nbrs.len(),
{
    if nbrs.len() > 0 {
        let m = path.len() as int;
        let n = nbrs.last();
        let p2 = path.push(n);
        lemma_paths_unique(g, path, nbrs.drop_last(), target, fuel);
        lemma_paths_extend(g, path, nbrs.drop_last(), target, fuel);
        let rest = paths_through(g, path, nbrs.drop_last(), target, fuel);
        let here = if !g.is_active(n) || path.contains(n) {
            Seq::empty()
        } else if n == target {
            seq![p2]
        } else if fuel == 0 {
            Seq::empty()
        } else {
            paths_through(g, p2, path_neighbours(g, n), target, (fuel - 1) as nat)
        };
        assert(nbrs[nbrs.len() - 1].0 < g.len());
        if g.is_active(n) && !path.contains(n) && n != target && fuel > 0 {
            assert(neighbours_distinct(g, n));
            lemma_neighbours_bounded(g, n);
            lemma_paths_unique(g, p2, path_neighbours(g, n), target, (fuel - 1) as nat);
            lemma_paths_extend(g, p2, path_neighbours(g, n), target, (fuel - 1) as nat);
        }
        assert forall|i: int, j: int| 0 <= i < here.len() && 0 <= j < rest.len() implies here[i] != rest[j] by {
            let q = here[i];
            if n == target {
                assert(q == p2);
            } else {
                assert(q.take(p2.len() as int) == p2);
                assert(q[m] == q.take(p2.len() as int)[m]);
            }
            assert(q[m] == n);
            let r = rest[j];
            assert(nbrs.drop_last().contains(r[m]));
            if r[m] == n {
                let t = choose|t: int| 0 <= t < nbrs.drop_last().len() && nbrs.drop_last()[t] == n;
                assert(nbrs[t] == nbrs[nbrs.len() - 1]);
            }
        }
        lemma_concat_no_dup(here, rest);
        assert(paths_through(g, path, nbrs, target, fuel) == here + rest);
    }
}

/// The neighbours of an arena node are arena nodes.
proof fn lemma_neighbours_bounded(g: GraphModel, x: NodeId)
    requires
        g.wf(),
        x.0 < g.len(),
    ensures
        forall|k: int| 0 <= k < path_neighbours(g, x).len() ==> (#[trigger] path_neighbours(g, x)[k]).0 < g.len(),
{
    let ps = g.parents(x);
    let cs = g.children(x);
    assert forall|k: int| 0 <= k < path_neighbours(g, x).len() implies (#[trigger] path_neighbours(g, x)[k]).0 < g.len() by {
        if k < ps.len() {
            assert(path_neighbours(g, x)[k] == g.nodes[x.0 as int].parents[k]);
        } else {
            let c = cs[k - ps.len()];
            assert(path_neighbours(g, x)[k] == c);
            g.order.lemma_filter_pred(g.child_pred(x), k - ps.len());
            assert(cs.contains(c));
            crate::dag::linked_graph::lemma_filter_contains_iff(g.order, g.child_pred(x), c);
            let j = choose|j: int| 0 <= j < g.order.len() && g.order[j] == c;
            assert(g.order[j].0 < g.len());
        }
    }
}

/// When no node lists another twice among its parents and active children,
/// the simple-path search finds each path once.
pub proof fn law_simple_paths_once(g: GraphModel, source: NodeId, target: NodeId)
    requires
        g.wf(),
        source.0 < g.len(),
        forall|x: NodeId| x.0 < g.len() ==> #[trigger] neighbours_distinct(g, x),
    ensures
        all_simple_paths(g, source, target).no_duplicates(),
{
    let both = g.parents(source) + g.children(source);
    crate::dag::linked_graph::lemma_dedup(both);
    lemma_neighbours_bounded(g, source);
    assert forall|k: int| 0 <= k < crate::dag::linked_graph::dedup(both).len() implies (
    #[trigger] crate::dag::linked_graph::dedup(both)[k]).0 < g.len() by {
        let y = crate::dag::linked_graph::dedup(both)[k];
        assert(crate::dag::linked_graph::dedup(both).contains(y));
        assert(both.contains(y));
        let i = choose|i: int| 0 <= i < both.len() && both[i] == y;
        assert(path_neighbours(g, source) == both);
        assert(path_neighbours(g, source)[i] == y);
    }
    lemma_paths_unique(g, seq![source], crate::dag::linked_graph::dedup(both), target, g.len());
}

/// A node linked to `n` that is active is among the neighbours the search
/// tries from `n`.
proof fn lemma_neighbour_listed(g: GraphModel, n: NodeId, y: NodeId)
    requires
        linked(g, n, y),
        g.is_active(y),
    ensures
        path_neighbours(g, n).contains(y),
{
    let ps = g.parents(n);
    let cs = g.children(n);
    if ps.contains(y) {
        let i = choose|i: int| 0 <= i < ps.len() && ps[i] == y;
        assert((ps + cs)[i] == y);
    } else {
        assert(g.has_parent(y, n));
        crate::dag::linked_graph::lemma_filter_contains_iff(g.order, g.child_pred(n), y);
        let i = choose|i: int| 0 <= i < cs.len() && cs[i] == y;
        assert((ps + cs)[ps.len() + i] == y);
    }
}

/// Every simple path to `target` that extends `path` through a node of
/// `nbrs`, with at most `fuel` nodes between that node and `target`, is among
/// the paths the search finds.
proof fn lemma_paths_complete(g: GraphModel, path: Seq<NodeId>, nbrs: Seq<NodeId>, target: NodeId, fuel: nat, q: Seq<NodeId>)
    requires
        q.len() > path.len(),
        q.take(path.len() as int) == path,
        nbrs.contains(q[path.len() as int]),
        q.last() == target,
        q.no_duplicates(),
        forall|i: int| path.len() <= i < q.len() ==> g.is_active(#[trigger] q[i]),
        forall|i: int| path.len() <= i < q.len() - 1 ==> #[trigger] linked(g, q[i], q[i + 1]),
        q.len() <= path.len() + fuel + 1,
    ensures
        paths_through(g, path, nbrs, target, fuel).contains(q),
    decreases fuel, nbrs.len(),
{
    let m = path.len() as int;
    let n = nbrs.last();
    let rest = paths_through(g, path, nbrs.drop_last(), target, fuel);
    let p2 = path.push(n);
    let here = if !g.is_active(n) || path.contains(n) {
        Seq::empty()
    } else if n == target {
        seq![p2]
    } else if fuel == 0 {
        Seq::empty()
    } else {
        paths_through(g, p2, path_neighbours(g, n), target, (fuel - 1) as nat)
    };
    let all = paths_through(g, path, nbrs, target, fuel);
    assert(all == here + rest);
    if q[m] == n {
        assert(g.is_active(q[m]));
        assert(!path.contains(n)) by {
            if path.contains(n) {
                let i = choose|i: int| 0 <= i < path.len() && path[i] == n;
                assert(q.take(m)[i] == q[i]);
            }
        }
        if n == target {
            if q.len() > m + 1 {
                assert(q[q.len() - 1] == q[m]);
            }
            assert(q =~= p2) by {
                assert forall|i: int| 0 <= i < m implies q[i] == p2[i] by {
                    assert(q.take(m)[i] == q[i]);
                }
            }
            assert(all[0] == q);
        } else {
            assert(q.len() > m + 1) by {
                if q.len() == m + 1 {
                    assert(q.last() == q[m]);
                }
            }
            assert(linked(g, q[m], q[m + 1]));
            lemma_neighbour_listed(g, n, q[m + 1]);
            assert(q.take(m + 1) =~= p2) by {
                assert forall|i: int| 0 <= i < m implies q[i] == p2[i] by {
                    assert(q.take(m)[i] == q[i]);
                }
            }
            lemma_paths_complete(g, p2, path_neighbours(g, n), target, (fuel - 1) as nat, q);
            let i = choose|i: int| 0 <= i < here.len() && here[i] == q;
            assert(all[i] == q);
        }
    } else {
        assert(nbrs.drop_last().contains(q[m])) by {
            let j = choose|j: int| 0 <= j < nbrs.len() && nbrs[j] == q[m];
            assert(j != nbrs.len() - 1);
            assert(nbrs.drop_last()[j] == q[m]);
        }
        lemma_paths_complete(g, path, nbrs.drop_last(), target, fuel, q);
        let i = choose|i: int| 0 <= i < rest.len() && rest[i] == q;
        assert(all[here.len() + i] == q);
    }
}

/// Every simple path from `source` to `target` is among the paths that the
/// simple-path search returns.
pub proof fn law_simple_paths_complete(g: GraphModel, source: NodeId, target: NodeId, p: Seq<NodeId>)
    requires
        g.wf(),
        source.0 < g.len(),
        is_simple_path(g, p, source, target),
    ensures
        all_simple_paths(g, source, target).contains(p),
{
    let both = g.parents(source) + g.children(source);
    crate::dag::linked_graph::lemma_dedup(both);
    let k0: int = 0;
    assert(linked(g, p[k0], p[k0 + 1]));
    assert(g.is_active(p[1]));
    lemma_neighbour_listed(g, source, p[1]);
    assert forall|k: int| 0 <= k < p.len() implies (#[trigger] p[k]).0 < g.len() by {
        if k > 0 {
            assert(g.is_active(p[k]));
            let j = choose|j: int| 0 <= j < g.order.len() && g.order[j] == p[k];
            assert(g.order[j].0 < g.len());
        }
    }
    crate::dag::linked_graph::lemma_nodup_bounded(p, g.len());
    assert(p.take(1) =~= seq![source]);
    lemma_paths_complete(g, seq![source], crate::dag::linked_graph::dedup(both), target, g.len(), p);
}

/// Every node visited by the component search lies in one of the components
/// met.
pub proof fn law_components_cover(g: GraphModel, srcs: Seq<NodeId>)
    requires
        forall|k: int| 0 <= k < srcs.len() ==> (#[trigger] srcs[k]).0 < g.len(),
    ensures
        forall|k: int| 0 <= k < srcs.len() ==> covered(components_spec(g, srcs), #[trigger] srcs[k]),
    decreases srcs.len(),
{
    if srcs.len() > 0 {
        let d = srcs.drop_last();
        law_components_cover(g, d);
        let prev = components_spec(g, d);
        let x = srcs.last();
        assert forall|k: int| 0 <= k < srcs.len() implies covered(components_spec(g, srcs), #[trigger] srcs[k]) by {
            let cs = components_spec(g, srcs);
            if k < srcs.len() - 1 {
                assert(srcs[k] == d[k]);
                assert(covered(prev, d[k]));
                let i = choose|i: int| 0 <= i < prev.len() && #[trigger] prev[i].contains(d[k]);
                if !covered(prev, x) {
                    assert(cs[i] == prev[i]);
                }
                assert(cs[i].contains(srcs[k]));
            } else if !covered(prev, x) {
                let w = seq![x];
                assert(g.is_link_walk(w));
                assert(g.connected(x, x));
                assert(cs[prev.len() as int] == g.component(x));
                assert(cs[prev.len() as int].contains(x));
            }
        }
    }
}

/// Every parent of an active node of `g` is active.
pub open spec fn active_closed(g: GraphModel) -> bool {
    forall|x: NodeId| g.is_active(x) ==> #[trigger] g.parents_active(x)
}

/// Links go both ways when every parent of an active node is active.
proof fn lemma_linked_symm(g: GraphModel, a: NodeId, b: NodeId)
    requires
        active_closed(g),
        g.linked(a, b),
    ensures
        g.linked(b, a),
{
    if g.has_parent(a, b) {
        assert(g.parents_active(a));
        let j = choose|j: int| 0 <= j < g.parents(a).len() && g.parents(a)[j] == b;
        assert(g.is_active(g.parents(a)[j]));
    }
}

/// A node is connected to itself.
proof fn lemma_connected_refl(g: GraphModel, a: NodeId)
    requires
        a.0 < g.len(),
    ensures
        g.connected(a, a),
{
    let w = seq![a];
    assert(g.is_link_walk(w));
}

/// Going back along the walk `s` from its last node reaches `s[k]`.
proof fn lemma_walk_back(g: GraphModel, s: Seq<NodeId>, k: int)
    requires
        active_closed(g),
        g.is_link_walk(s),
        0 <= k < s.len(),
    ensures
        g.connected(s.last(), s[k]),
    decreases s.len() - k,
{
    if k == s.len() - 1 {
        lemma_connected_refl(g, s[k]);
    } else {
        lemma_walk_back(g, s, k + 1);
        assert(g.linked(s[k], s[k + 1]));
        lemma_linked_symm(g, s[k], s[k + 1]);
        lemma_connected_step(g, s.last(), s[k + 1], s[k]);
    }
}

/// Going forward along the walk `s` from a node connected to its start
/// reaches `s[k]`.
proof fn lemma_walk_on(g: GraphModel, a: NodeId, s: Seq<NodeId>, k: int)
    requires
        g.is_link_walk(s),
        g.connected(a, s[0]),
        0 <= k < s.len(),
    ensures
        g.connected(a, s[k]),
    decreases k,
{
    if k > 0 {
        lemma_walk_on(g, a, s, k - 1);
        assert(g.linked(s[k - 1], s[(k - 1) + 1]));
        lemma_connected_step(g, a, s[k - 1], s[k]);
    }
}

/// Two nodes connected to a common node are connected to each other, when
/// every parent of an active node is active.
proof fn lemma_connected_via(g: GraphModel, a: NodeId, b: NodeId, z: NodeId)
    requires
        active_closed(g),
        g.connected(a, z),
        g.connected(b, z),
    ensures
        g.connected(a, b),
{
    let t = choose|t: Seq<NodeId>| #[trigger] g.is_link_walk(t) && t[0] == b && t.last() == z;
    lemma_walk_back(g, t, 0);
    let u = choose|u: Seq<NodeId>| #[trigger] g.is_link_walk(u) && u[0] == z && u.last() == b;
    lemma_walk_on(g, a, u, u.len() - 1);
}

/// Each set met by the component search is the component of one of the
/// nodes visited.
pub proof fn law_components_of_sources(g: GraphModel, srcs: Seq<NodeId>)
    ensures
        forall|i: int|
            0 <= i < components_spec(g, srcs).len() ==> exists|k: int|
                0 <= k < srcs.len() && #[trigger] components_spec(g, srcs)[i] == g.component(srcs[k]),
    decreases srcs.len(),
{
    if srcs.len() > 0 {
        let d = srcs.drop_last();
        law_components_of_sources(g, d);
        let prev = components_spec(g, d);
        let cs = components_spec(g, srcs);
        assert forall|i: int| 0 <= i < cs.len() implies exists|k: int|
            0 <= k < srcs.len() && #[trigger] cs[i] == g.component(srcs[k]) by {
            if i < prev.len() {
                assert(cs[i] == prev[i]);
                let k = choose|k: int| 0 <= k < d.len() && prev[i] == g.component(d[k]);
                assert(srcs[k] == d[k]);
            } else {
                assert(cs[i] == g.component(srcs[srcs.len() - 1]));
            }
        }
    }
}

/// The components met by the search share no node, when every parent of an
/// active node is active.
pub proof fn law_components_disjoint(g: GraphModel, srcs: Seq<NodeId>)
    requires
        active_closed(g),
        forall|k: int| 0 <= k < srcs.len() ==> (#[trigger] srcs[k]).0 < g.len(),
    ensures
        forall|i: int, j: int, z: NodeId|
            0 <= i < j < components_spec(g, srcs).len() ==> !(#[trigger] components_spec(g, srcs)[i].contains(z)
                && #[trigger] components_spec(g, srcs)[j].contains(z)),
    decreases srcs.len(),
{
    if srcs.len() > 0 {
        let d = srcs.drop_last();
        law_components_disjoint(g, d);
        law_components_of_sources(g, d);
        let prev = components_spec(g, d);
        let cs = components_spec(g, srcs);
        let x = srcs.last();
        assert forall|i: int, j: int, z: NodeId|
            0 <= i < j < cs.len() implies !(#[trigger] cs[i].contains(z) && #[trigger] cs[j].contains(z)) by {
            if j < prev.len() {
                assert(cs[i] == prev[i] && cs[j] == prev[j]);
            } else if cs[i].contains(z) && cs[j].contains(z) {
                assert(!covered(prev, x));
                assert(cs[i] == prev[i]);
                assert(cs[j] == g.component(x));
                let k = choose|k: int| 0 <= k < d.len() && prev[i] == g.component(d[k]);
                assert(g.connected(d[k], z));
                assert(g.connected(x, z));
                lemma_connected_via(g, d[k], x, z);
                assert(prev[i].contains(x));
            }
        }
    }
}

/// A graph with a single active node forms a single component.
pub proof fn law_single_node_one_component(g: GraphModel, x: NodeId)
    requires
        g.order == seq![x],
    ensures
        components_spec(g, g.order).len() == 1,
{
    let s = g.order;
    assert(s.drop_last() =~= Seq::<NodeId>::empty());
    assert(components_spec(g, s.drop_last()) =~= Seq::<Set<NodeId>>::empty());
    assert(!covered(Seq::<Set<NodeId>>::empty(), x));
}

} // verus!
