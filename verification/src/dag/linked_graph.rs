use vstd::prelude::*;
use crate::dag::node::{GraphNode, NodeContent, NodeId, NodeModel, ReconnectType};
use crate::dag::graph_utils::{collect_ancestors, ordered_subnodes_hierarchy};

verus! {

/// Mathematical model of a graph: every node ever created (the arena) and the
/// active nodes in order.
#[verifier::ext_equal]
pub struct GraphModel {
    pub nodes: Seq<NodeModel>,
    pub order: Seq<NodeId>,
}

/// The elements of `v`, each at its first occurrence.
pub fn vec_dedup(v: &Vec<NodeId>) -> (r: Vec<NodeId>)
    ensures
        r@ == dedup(v@),
{
    let mut unique: Vec<NodeId> = Vec::new();
    let mut i: usize = 0;
    while i < v.len()
        invariant
            i <= v@.len(),
            unique@ == dedup(v@.take(i as int)),
        decreases v@.len() - i,
    {
        let p = v[i];
        let found = vec_contains(&unique, p);
        proof {
            assert(v@.take(i + 1).drop_last() =~= v@.take(i as int));
            assert(v@.take(i + 1).last() == p);
        }
        if !found {
            unique.push(p);
        }
        i = i + 1;
    }
    proof {
        assert(v@.take(v@.len() as int) =~= v@);
    }
    unique
}

/// Keeps the first occurrence of every element, in order.
pub open spec fn dedup(s: Seq<NodeId>) -> Seq<NodeId>
    decreases s.len(),
{
    if s.len() == 0 {
        s
    } else {
        let d = dedup(s.drop_last());
        if d.contains(s.last()) {
            d
        } else {
            d.push(s.last())
        }
    }
}

/// `dedup` keeps exactly the elements of its input, each once.
pub proof fn lemma_dedup(s: Seq<NodeId>)
    ensures
        dedup(s).no_duplicates(),
        forall|x: NodeId| dedup(s).contains(x) <==> s.contains(x),
        dedup(s).len() <= s.len(),
    decreases s.len(),
{
    if s.len() > 0 {
        lemma_dedup(s.drop_last());
        let d = dedup(s.drop_last());
        if !d.contains(s.last()) {
            assert forall|i: int, j: int| 0 <= i < j < d.push(s.last()).len() implies d.push(s.last())[i]
                != d.push(s.last())[j] by {
                if j == d.len() {
                    assert(d[i] == d.push(s.last())[i]);
                }
            }
        }
        assert forall|x: NodeId| s.contains(x) <==> (s.drop_last().contains(x) || x == s.last()) by {
            if s.contains(x) {
                let i = choose|i: int| 0 <= i < s.len() && s[i] == x;
                if i < s.len() - 1 {
                    assert(s.drop_last()[i] == x);
                }
            }
            if s.drop_last().contains(x) {
                let i = choose|i: int| 0 <= i < s.drop_last().len() && s.drop_last()[i] == x;
                assert(s[i] == x);
            }
            if x == s.last() {
                assert(s[s.len() - 1] == x);
            }
        }
        assert forall|x: NodeId| dedup(s).contains(x) <==> (d.contains(x) || x == s.last()) by {
            if !d.contains(s.last()) {
                let e = d.push(s.last());
                assert(dedup(s) == e);
                if e.contains(x) {
                    let i = choose|i: int| 0 <= i < e.len() && e[i] == x;
                    if i < d.len() {
                        assert(d[i] == x);
                    }
                }
                if d.contains(x) {
                    let i = choose|i: int| 0 <= i < d.len() && d[i] == x;
                    assert(e[i] == x);
                }
                if x == s.last() {
                    assert(e[d.len() as int] == x);
                }
            }
        }
    }
}

/// `s` without any occurrence of `x`.
pub open spec fn without(s: Seq<NodeId>, x: NodeId) -> Seq<NodeId> {
    s.filter(ne_pred(x))
}

/// The predicate "differs from `x`".
pub open spec fn ne_pred(x: NodeId) -> spec_fn(NodeId) -> bool {
    |y: NodeId| y != x
}

/// `s` extended by each element of `extra` that it does not hold yet, in order.
pub open spec fn extend_unique(s: Seq<NodeId>, extra: Seq<NodeId>) -> Seq<NodeId>
    decreases extra.len(),
{
    if extra.len() == 0 {
        s
    } else {
        let a = extend_unique(s, extra.drop_last());
        if a.contains(extra.last()) {
            a
        } else {
            a.push(extra.last())
        }
    }
}

/// The predicate "is not listed in `s`".
pub open spec fn not_in_pred(s: Seq<NodeId>) -> spec_fn(NodeId) -> bool {
    |x: NodeId| !s.contains(x)
}

/// `ps` with every occurrence of `a` replaced by `b`.
pub open spec fn replace_id(ps: Seq<NodeId>, a: NodeId, b: NodeId) -> Seq<NodeId> {
    ps.map_values(|x: NodeId| if x == a { b } else { x })
}

/// Returns the elements of `v` that `s` does not list, in order.
pub fn vec_filter_not_in(v: &Vec<NodeId>, s: &Vec<NodeId>) -> (r: Vec<NodeId>)
    ensures
        r@ == v@.filter(not_in_pred(s@)),
{
    let ghost pred = not_in_pred(s@);
    let mut r: Vec<NodeId> = Vec::new();
    let mut i: usize = 0;
    while i < v.len()
        invariant
            i <= v@.len(),
            r@ == v@.take(i as int).filter(pred),
            pred == not_in_pred(s@),
        decreases v@.len() - i,
    {
        let y = v[i];
        if !vec_contains(s, y) {
            r.push(y);
        }
        proof {
            assert(v@.take(i + 1) =~= v@.take(i as int).push(y));
            v@.take(i as int).lemma_filter_push(y, pred);
        }
        i = i + 1;
    }
    proof {
        assert(v@.take(v@.len() as int) =~= v@);
    }
    r
}

/// Filtering keeps exactly the elements that pass.
pub proof fn lemma_filter_contains_iff(s: Seq<NodeId>, pred: spec_fn(NodeId) -> bool, y: NodeId)
    ensures
        s.filter(pred).contains(y) <==> (s.contains(y) && pred(y)),
{
    if s.contains(y) && pred(y) {
        let i = choose|i: int| 0 <= i < s.len() && s[i] == y;
        s.lemma_filter_contains(pred, i);
    }
    if s.filter(pred).contains(y) {
        s.lemma_filter_contains_rev(pred, y);
        let i = choose|i: int| 0 <= i < s.filter(pred).len() && s.filter(pred)[i] == y;
        s.lemma_filter_pred(pred, i);
    }
}

/// Returns `v` without any occurrence of `x`.
pub fn vec_without(v: &Vec<NodeId>, x: NodeId) -> (r: Vec<NodeId>)
    ensures
        r@ == without(v@, x),
{
    let ghost pred = ne_pred(x);
    let mut r: Vec<NodeId> = Vec::new();
    let mut i: usize = 0;
    while i < v.len()
        invariant
            i <= v@.len(),
            r@ == v@.take(i as int).filter(pred),
            pred == ne_pred(x),
        decreases v@.len() - i,
    {
        let y = v[i];
        if y != x {
            r.push(y);
        }
        proof {
            assert(v@.take(i + 1) =~= v@.take(i as int).push(y));
            v@.take(i as int).lemma_filter_push(y, pred);
        }
        i = i + 1;
    }
    proof {
        assert(v@.take(v@.len() as int) =~= v@);
    }
    r
}

/// Returns `true` when `v` holds `x`.
pub fn vec_contains(v: &Vec<NodeId>, x: NodeId) -> (r: bool)
    ensures
        r == v@.contains(x),
{
    let mut i: usize = 0;
    while i < v.len()
        invariant
            i <= v@.len(),
            forall|k: int| 0 <= k < i ==> v@[k] != x,
        decreases v@.len() - i,
    {
        if v[i] == x {
            return true;
        }
        i = i + 1;
    }
    false
}

/// Returns `s` extended by each element of `extra` that it does not hold yet.
pub fn vec_extend_unique(s: &Vec<NodeId>, extra: &Vec<NodeId>) -> (r: Vec<NodeId>)
    ensures
        r@ == extend_unique(s@, extra@),
{
    let mut r = s.clone();
    proof {
        assert(r@ =~= s@);
    }
    let mut i: usize = 0;
    while i < extra.len()
        invariant
            i <= extra@.len(),
            r@ == extend_unique(s@, extra@.take(i as int)),
        decreases extra@.len() - i,
    {
        let e = extra[i];
        proof {
            assert(extra@.take(i + 1).drop_last() =~= extra@.take(i as int));
        }
        if !vec_contains(&r, e) {
            r.push(e);
        }
        i = i + 1;
    }
    proof {
        assert(extra@.take(extra@.len() as int) =~= extra@);
    }
    r
}

/// Every element of `extend_unique(s, extra)` comes from `s` or `extra`.
pub proof fn lemma_extend_unique_contains(s: Seq<NodeId>, extra: Seq<NodeId>, x: NodeId)
    ensures
        extend_unique(s, extra).contains(x) <==> (s.contains(x) || extra.contains(x)),
    decreases extra.len(),
{
    if extra.len() > 0 {
        lemma_extend_unique_contains(s, extra.drop_last(), x);
        let a = extend_unique(s, extra.drop_last());
        if !a.contains(extra.last()) {
            let e = a.push(extra.last());
            if e.contains(x) {
                let i = choose|i: int| 0 <= i < e.len() && e[i] == x;
                if i < a.len() {
                    assert(a[i] == x);
                }
            }
            if a.contains(x) {
                let i = choose|i: int| 0 <= i < a.len() && a[i] == x;
                assert(e[i] == x);
            }
            if x == extra.last() {
                assert(e[a.len() as int] == x);
            }
        }
        if extra.contains(x) {
            let i = choose|i: int| 0 <= i < extra.len() && extra[i] == x;
            if i < extra.len() - 1 {
                assert(extra.drop_last()[i] == x);
            }
        }
        if extra.drop_last().contains(x) {
            let i = choose|i: int| 0 <= i < extra.drop_last().len() && extra.drop_last()[i] == x;
            assert(extra[i] == x);
        }
    }
}

/// Every element of `without(s, x)` comes from `s` and differs from `x`.
pub proof fn lemma_without_contains(s: Seq<NodeId>, x: NodeId, y: NodeId)
    ensures
        without(s, x).contains(y) <==> (s.contains(y) && y != x),
{
    let pred = ne_pred(x);
    if s.contains(y) && y != x {
        let i = choose|i: int| 0 <= i < s.len() && s[i] == y;
        s.lemma_filter_contains(pred, i);
    }
    if without(s, x).contains(y) {
        s.lemma_filter_contains_rev(pred, y);
    }
}

impl GraphModel {
    /// Number of nodes ever created in the arena.
    pub open spec fn len(self) -> nat {
        self.nodes.len()
    }

    /// The parents of `id`.
    pub open spec fn parents(self, id: NodeId) -> Seq<NodeId> {
        self.nodes[id.0 as int].parents
    }

    /// `parent` is listed among the parents of `child`.
    pub open spec fn has_parent(self, child: NodeId, parent: NodeId) -> bool {
        self.parents(child).contains(parent)
    }

    /// `id` is in the active node set.
    pub open spec fn is_active(self, id: NodeId) -> bool {
        self.order.contains(id)
    }

    /// Every id held by the graph refers to an arena node, and no node is active twice.
    pub open spec fn wf(self) -> bool {
        &&& self.nodes.len() <= usize::MAX
        &&& forall|i: int, k: int|
            0 <= i < self.nodes.len() && 0 <= k < self.nodes[i].parents.len() ==> (#[trigger] self.nodes[i].parents[k]).0
                < self.nodes.len()
        &&& self.order.no_duplicates()
        &&& forall|k: int| 0 <= k < self.order.len() ==> (#[trigger] self.order[k]).0 < self.nodes.len()
    }

    /// The active nodes that list `p` as a parent, in order.
    pub open spec fn children(self, p: NodeId) -> Seq<NodeId> {
        self.order.filter(self.child_pred(p))
    }

    /// The predicate "lists `p` as a parent".
    pub open spec fn child_pred(self, p: NodeId) -> spec_fn(NodeId) -> bool {
        |c: NodeId| self.has_parent(c, p)
    }

    /// The predicate "is a root".
    pub open spec fn root_pred(self) -> spec_fn(NodeId) -> bool {
        |x: NodeId| self.is_root(x)
    }

    /// No active node lists `x` as a parent.
    pub open spec fn is_root(self, x: NodeId) -> bool {
        self.children(x).len() == 0
    }

    /// The active nodes without children, in order.
    pub open spec fn roots(self) -> Seq<NodeId> {
        self.order.filter(self.root_pred())
    }

    /// The edges `(parent, child)` of the first `k` active nodes.
    pub open spec fn edges_upto(self, k: int) -> Seq<(NodeId, NodeId)>
        decreases k,
    {
        if k <= 0 {
            Seq::empty()
        } else {
            let c = self.order[k - 1];
            self.edges_upto(k - 1) + self.parents(c).map_values(|p: NodeId| (p, c))
        }
    }

    /// Every edge `(parent, child)` whose child is active, in node order.
    pub open spec fn edges(self) -> Seq<(NodeId, NodeId)> {
        self.edges_upto(self.order.len() as int)
    }

    /// This model with the parents of `id` replaced by `ps`.
    pub open spec fn with_parents(self, id: NodeId, ps: Seq<NodeId>) -> GraphModel {
        GraphModel {
            nodes: self.nodes.update(id.0 as int, NodeModel { parents: ps, ..self.nodes[id.0 as int] }),
            order: self.order,
        }
    }

    /// This model with the active node list replaced by `order`.
    pub open spec fn with_order(self, order: Seq<NodeId>) -> GraphModel {
        GraphModel { nodes: self.nodes, order }
    }

    /// Every element of `ps` refers to an arena node.
    pub open spec fn valid_ids(self, ps: Seq<NodeId>) -> bool {
        forall|k: int| 0 <= k < ps.len() ==> (#[trigger] ps[k]).0 < self.nodes.len()
    }

    /// The parents of `node` other than `node` itself: those that deleting it
    /// hands on to its children.
    pub open spec fn handed_parents(self, node: NodeId) -> Seq<NodeId> {
        without(self.parents(node), node)
    }

    /// Whether deleting `node` reconnects its parents to each of its children.
    pub open spec fn reconnects(self, node: NodeId, reconnect: ReconnectType) -> bool {
        &&& self.handed_parents(node).len() > 0
        &&& match reconnect {
            ReconnectType::NoReconnect => false,
            ReconnectType::Single => self.children(node).len() == 1,
            ReconnectType::All => true,
        }
    }

    /// The graph after deleting the active node `node`: it leaves the active
    /// set, its children drop it as a parent and, where `reconnect` says so,
    /// take its parents other than itself in its place.
    pub open spec fn after_delete_node(self, node: NodeId, reconnect: ReconnectType) -> GraphModel {
        GraphModel {
            nodes: Seq::new(
                self.nodes.len(),
                |i: int|
                    if self.children(node).contains(NodeId(i as usize)) {
                        NodeModel {
                            parents: if self.reconnects(node, reconnect) {
                                extend_unique(without(self.nodes[i].parents, node), self.handed_parents(node))
                            } else {
                                without(self.nodes[i].parents, node)
                            },
                            ..self.nodes[i]
                        }
                    } else {
                        self.nodes[i]
                    },
            ),
            order: without(self.order, node),
        }
    }

    /// `s` is a walk from `s[0]` upwards: each element is a parent of the one before.
    pub open spec fn is_path(self, s: Seq<NodeId>) -> bool {
        &&& s.len() >= 1
        &&& forall|k: int| 0 <= k < s.len() ==> (#[trigger] s[k]).0 < self.nodes.len()
        &&& forall|k: int| 0 <= k < s.len() - 1 ==> #[trigger] self.has_parent(s[k], s[k + 1])
    }

    /// `b` is `a` or one of its ancestors.
    pub open spec fn reaches(self, a: NodeId, b: NodeId) -> bool {
        exists|s: Seq<NodeId>| #[trigger] self.is_path(s) && s[0] == a && s.last() == b
    }

    /// Every parent of the node at position `k` of the active order is active.
    pub open spec fn parents_active(self, x: NodeId) -> bool {
        forall|j: int| 0 <= j < self.parents(x).len() ==> self.is_active(#[trigger] self.parents(x)[j])
    }

    /// The graph after removing the nodes listed in `s`: they leave the active
    /// set, and the remaining active nodes drop them as parents.
    pub open spec fn after_remove_set(self, s: Seq<NodeId>) -> GraphModel {
        GraphModel {
            nodes: Seq::new(
                self.nodes.len(),
                |i: int|
                    if self.is_active(NodeId(i as usize)) && !s.contains(NodeId(i as usize)) {
                        NodeModel { parents: self.nodes[i].parents.filter(not_in_pred(s)), ..self.nodes[i] }
                    } else {
                        self.nodes[i]
                    },
            ),
            order: self.order.filter(not_in_pred(s)),
        }
    }

    /// The graph after the children of `old` take `new` in place of `old` among their parents.
    pub open spec fn after_actualise(self, old: NodeId, new: NodeId) -> GraphModel {
        GraphModel {
            nodes: Seq::new(
                self.nodes.len(),
                |i: int|
                    if self.children(old).contains(NodeId(i as usize)) {
                        NodeModel { parents: replace_id(self.nodes[i].parents, old, new), ..self.nodes[i] }
                    } else {
                        self.nodes[i]
                    },
            ),
            order: self.order,
        }
    }

    /// `v` lists `x` first and then every ancestor of `x`, each once.
    pub open spec fn is_ancestor_listing(self, x: NodeId, v: Seq<NodeId>) -> bool {
        &&& v.len() >= 1
        &&& v[0] == x
        &&& v.no_duplicates()
        &&& forall|k: int| 0 <= k < v.len() ==> self.reaches(x, #[trigger] v[k])
        &&& forall|k: int, j: int|
            0 <= k < v.len() && 0 <= j < self.parents(v[k]).len() ==> v.contains(
                #[trigger] self.parents(v[k])[j],
            )
    }

    /// `h` is this graph with copies of the nodes listed in `v`, taken from
    /// `src`, appended to the arena: the copy of `v[k]` sits at `len + k` and
    /// its parents are the copies of the parents of `v[k]`.
    pub open spec fn appended_copies(self, src: GraphModel, v: Seq<NodeId>, h: GraphModel) -> bool {
        &&& h.order == self.order
        &&& h.nodes.len() == self.nodes.len() + v.len()
        &&& h.nodes.take(self.nodes.len() as int) == self.nodes
        &&& forall|k: int|
            0 <= k < v.len() ==> {
                &&& (#[trigger] h.nodes[self.nodes.len() + k]).name == src.nodes[v[k].0 as int].name
                &&& h.nodes[self.nodes.len() + k].params == src.nodes[v[k].0 as int].params
                &&& h.nodes[self.nodes.len() + k].parents == src.parents(v[k]).map_values(
                    |p: NodeId| NodeId((self.nodes.len() + v.index_of(p)) as usize),
                )
            }
    }

    /// `h` is what adding `id` to this graph gives: the order grows by `id`
    /// (unless active already) and, in pre-order, the ancestors of `id` that
    /// only inactive nodes lead to.
    pub open spec fn add_node_result(self, id: NodeId, h: GraphModel) -> bool {
        &&& h.nodes == self.nodes
        &&& h.order == added_order(self, id)
        &&& h.order.len() >= self.order.len()
        &&& h.order.take(self.order.len() as int) == self.order
        &&& h.is_active(id)
        &&& self.is_active(id) ==> h == self
        &&& !self.is_active(id) ==> h.order[self.order.len() as int] == id
        &&& forall|k: int| self.order.len() <= k < h.order.len() ==> self.reaches(id, #[trigger] h.order[k])
        &&& forall|k: int| self.order.len() <= k < h.order.len() ==> h.parents_active(#[trigger] h.order[k])
        &&& forall|k: int|
            self.order.len() < k < h.order.len() ==> exists|j: int|
                self.order.len() <= j < k && self.has_parent(h.order[j], #[trigger] h.order[k])
    }

    /// `h` is what sorting this graph gives: when it has a single root and no
    /// cycle, the order becomes the pre-order hierarchy of that root (unless a
    /// cycle among inactive nodes lies above it); otherwise nothing changes.
    pub open spec fn sort_result(self, h: GraphModel) -> bool {
        &&& h.nodes == self.nodes
        &&& if self.roots().len() == 1 && self.acyclic() {
            ||| self.is_hierarchy(self.roots()[0], h.order) && self.parent_closed(h.order) && !self.cycle_above(
                self.roots()[0],
            ) && h.order == preorder_add(self.nodes, Seq::empty(), self.roots()[0], (self.nodes.len() + 1) as nat)
            ||| h == self && self.cycle_above(self.roots()[0])
        } else {
            h == self
        }
    }

    /// `h` is what deleting the subtree of `node` gives: `node` and all of its
    /// ancestors leave, or nothing changes when a cycle lies above it.
    pub open spec fn delete_subtree_result(self, node: NodeId, h: GraphModel) -> bool {
        if self.cycle_above(node) {
            h == self
        } else {
            exists|v: Seq<NodeId>|
                self.is_hierarchy(node, v) && self.parent_closed(v) && h == #[trigger] self.after_remove_set(v)
        }
    }

    /// The graph in the middle of replacing `old` by `new`: the children of
    /// `old` point to `new`, `new` takes over the parents of `old`, and `old`
    /// leaves the active set.
    pub open spec fn update_node_mid(self, old: NodeId, new: NodeId) -> GraphModel {
        let g1 = self.after_actualise(old, new);
        g1.with_parents(new, extend_unique(g1.parents(new), g1.parents(old))).with_order(without(g1.order, old))
    }

    /// `h` is what replacing `old` by `new` gives: the children of `old` point
    /// to `new`, `new` takes over the parents of `old`, `old` leaves, `new` and
    /// its ancestors join the active set, and the nodes are re-sorted.
    pub open spec fn update_node_result(self, old: NodeId, new: NodeId, h: GraphModel) -> bool {
        exists|g3: GraphModel| self.update_node_mid(old, new).add_node_result(new, g3) && #[trigger] g3.sort_result(h)
    }

    /// `h` is what replacing the subtree of `old` by a copy of the subtree of
    /// `new` gives: the ancestors of `new` are copied to the end of the arena,
    /// the children of `old` point to the copy of `new`, the subtree of `old`
    /// is deleted, the copy joins the active set, and the nodes are re-sorted.
    pub open spec fn update_subtree_result(self, old: NodeId, new: NodeId, h: GraphModel) -> bool {
        exists|g1: GraphModel, v: Seq<NodeId>, g3: GraphModel, g4: GraphModel|
            #![trigger self.appended_copies(self, v, g1), g3.add_node_result(NodeId(self.len() as usize), g4)]
            self.appended_copies(self, v, g1) && self.is_ancestor_listing(new, v) && g1.after_actualise(
                old,
                NodeId(self.len() as usize),
            ).delete_subtree_result(old, g3) && g3.add_node_result(NodeId(self.len() as usize), g4) && g4.sort_result(h)
    }

    /// `h` is `self` with one more node in the arena, named `name`, with the
    /// parameters `params` and the parents `dedup(parents)`, and not active.
    pub open spec fn with_detached(self, h: GraphModel, name: Seq<char>, params: Seq<(String, String)>, parents: Seq<NodeId>) -> bool {
        &&& h.order == self.order
        &&& h.nodes.len() == self.len() + 1
        &&& h.nodes.take(self.len() as int) == self.nodes
        &&& h.nodes[self.len() as int].name == name
        &&& h.nodes[self.len() as int].params == params
        &&& h.nodes[self.len() as int].parents == dedup(parents)
    }

    /// Some active node lists `y` as a parent.
    pub open spec fn has_child(self, y: NodeId) -> bool {
        exists|c: NodeId| self.is_active(c) && #[trigger] self.has_parent(c, y)
    }

    /// `h` is what pruning upwards from `start` gives: the nodes listed in some
    /// `s` leave the active set, where `s` holds `start` unless `start` keeps a
    /// child, every listed node is left without children, every parent of a
    /// listed node is listed or keeps a child, and every listed node other than
    /// `start` is a parent of a listed node.
    pub open spec fn cleanup_result(self, start: NodeId, h: GraphModel) -> bool {
        &&& h.nodes == self.nodes
        &&& exists|s: Seq<NodeId>|
            {
                &&& h.order == #[trigger] self.order.filter(not_in_pred(s))
                &&& forall|k: int| 0 <= k < s.len() ==> !h.has_child(#[trigger] s[k])
                &&& s.contains(start) || h.has_child(start)
                &&& forall|k: int, j: int|
                    0 <= k < s.len() && 0 <= j < self.parents(s[k]).len() ==> s.contains(
                        #[trigger] self.parents(s[k])[j],
                    ) || h.has_child(self.parents(s[k])[j])
                &&& forall|k: int|
                    0 <= k < s.len() ==> #[trigger] s[k] == start || exists|k2: int|
                        0 <= k2 < s.len() && self.has_parent(s[k2], s[k])
            }
    }
}

/// The active order after adding `id` in pre-order to `order`: `id`, unless
/// it is there already, then each of its parents in turn, each with its own
/// parents first; `fuel` bounds the depth of the walk.
pub open spec fn preorder_add(nodes: Seq<NodeModel>, order: Seq<NodeId>, id: NodeId, fuel: nat) -> Seq<NodeId>
    decreases fuel, 0nat,
{
    if order.contains(id) || fuel == 0 {
        order
    } else {
        preorder_list(nodes, order.push(id), nodes[id.0 as int].parents, (fuel - 1) as nat)
    }
}

/// The active order after adding the nodes `ps` one after the other, each in
/// pre-order.
pub open spec fn preorder_list(nodes: Seq<NodeModel>, order: Seq<NodeId>, ps: Seq<NodeId>, fuel: nat) -> Seq<NodeId>
    decreases fuel, ps.len() + 1,
{
    if ps.len() == 0 {
        order
    } else {
        preorder_add(nodes, preorder_list(nodes, order, ps.drop_last(), fuel), ps.last(), fuel)
    }
}

/// The active order of `g` after adding `id` in pre-order, with fuel enough
/// for every node of the arena.
pub open spec fn added_order(g: GraphModel, id: NodeId) -> Seq<NodeId> {
    preorder_add(g.nodes, g.order, id, (g.nodes.len() + 1 - g.order.len()) as nat)
}

/// Every element of `order` is an arena node, each listed once.
pub open spec fn order_ok(nodes: Seq<NodeModel>, order: Seq<NodeId>) -> bool {
    &&& order.no_duplicates()
    &&& forall|k: int| 0 <= k < order.len() ==> (#[trigger] order[k]).0 < nodes.len()
}

/// Every parent of every arena node is an arena node.
pub open spec fn parents_ok(nodes: Seq<NodeModel>) -> bool {
    forall|i: int, k: int| 0 <= i < nodes.len() && 0 <= k < nodes[i].parents.len() ==> (#[trigger] nodes[i].parents[k]).0 < nodes.len()
}

/// With fuel for every arena node, adding in pre-order does not depend on the
/// fuel, and it extends the order without repeats.
pub proof fn lemma_preorder_add(nodes: Seq<NodeModel>, order: Seq<NodeId>, id: NodeId, f1: nat, f2: nat)
    requires
        parents_ok(nodes),
        order_ok(nodes, order),
        id.0 < nodes.len(),
        f1 + order.len() >= nodes.len() + 1,
        f2 + order.len() >= nodes.len() + 1,
    ensures
        preorder_add(nodes, order, id, f1) == preorder_add(nodes, order, id, f2),
        order_ok(nodes, preorder_add(nodes, order, id, f1)),
        preorder_add(nodes, order, id, f1).len() >= order.len(),
        preorder_add(nodes, order, id, f1).take(order.len() as int) == order,
    decreases f1, 0nat,
{
    lemma_nodup_bounded(order, nodes.len());
    if order.contains(id) {
        assert(order.take(order.len() as int) =~= order);
    } else {
        let o2 = order.push(id);
        assert(order_ok(nodes, o2)) by {
            assert forall|a: int, b: int| 0 <= a < b < o2.len() implies o2[a] != o2[b] by {
                if b == order.len() {
                    assert(o2[a] == order[a]);
                }
            }
        }
        assert forall|k: int| 0 <= k < nodes[id.0 as int].parents.len() implies (#[trigger] nodes[id.0 as int].parents[k]).0 < nodes.len() by {}
        lemma_preorder_list(nodes, o2, nodes[id.0 as int].parents, (f1 - 1) as nat, (f2 - 1) as nat);
        let r = preorder_list(nodes, o2, nodes[id.0 as int].parents, (f1 - 1) as nat);
        assert(r.take(order.len() as int) =~= r.take(o2.len() as int).take(order.len() as int));
        assert(o2.take(order.len() as int) =~= order);
    }
}

/// With fuel for every arena node, adding a list of nodes in pre-order does
/// not depend on the fuel, and it extends the order without repeats.
pub proof fn lemma_preorder_list(nodes: Seq<NodeModel>, order: Seq<NodeId>, ps: Seq<NodeId>, f1: nat, f2: nat)
    requires
        parents_ok(nodes),
        order_ok(nodes, order),
        forall|k: int| 0 <= k < ps.len() ==> (#[trigger] ps[k]).0 < nodes.len(),
        f1 + order.len() >= nodes.len() + 1,
        f2 + order.len() >= nodes.len() + 1,
    ensures
        preorder_list(nodes, order, ps, f1) == preorder_list(nodes, order, ps, f2),
        order_ok(nodes, preorder_list(nodes, order, ps, f1)),
        preorder_list(nodes, order, ps, f1).len() >= order.len(),
        preorder_list(nodes, order, ps, f1).take(order.len() as int) == order,
    decreases f1, ps.len() + 1,
{
    if ps.len() == 0 {
        assert(order.take(order.len() as int) =~= order);
    } else {
        let d = ps.drop_last();
        lemma_preorder_list(nodes, order, d, f1, f2);
        let m = preorder_list(nodes, order, d, f1);
        assert(ps.last() == ps[ps.len() - 1]);
        lemma_preorder_add(nodes, m, ps.last(), f1, f2);
        let r = preorder_add(nodes, m, ps.last(), f1);
        assert(r.take(order.len() as int) =~= r.take(m.len() as int).take(order.len() as int));
    }
}

/// Directed graph backed by an arena.
///
/// `arena` owns every node ever created in the graph and hands out stable
/// [`NodeId`] indices; `order` is the active node list.
pub struct LinkedGraph {
    arena: Vec<GraphNode>,
    order: Vec<NodeId>,
}

/// `c` is `g` with the same active nodes, names, parameters and parents
/// (its uids may differ).
pub open spec fn same_structure(g: GraphModel, c: GraphModel) -> bool {
    &&& c.order == g.order
    &&& c.nodes.len() == g.nodes.len()
    &&& forall|k: int|
        0 <= k < g.nodes.len() ==> {
            &&& (#[trigger] c.nodes[k]).name == g.nodes[k].name
            &&& c.nodes[k].params == g.nodes[k].params
            &&& c.nodes[k].parents == g.nodes[k].parents
        }
}

/// `h` is what adding the nodes `ids` to `g` one after another gives.
pub open spec fn adds_result(g: GraphModel, ids: Seq<NodeId>, h: GraphModel) -> bool
    decreases ids.len(),
{
    if ids.len() == 0 {
        h == g
    } else {
        exists|mid: GraphModel| adds_result(g, ids.drop_last(), mid) && #[trigger] mid.add_node_result(ids.last(), h)
    }
}

/// `n` with every parent id moved up by `d`.
pub open spec fn shifted(n: NodeModel, d: nat) -> NodeModel {
    NodeModel { parents: n.parents.map_values(|p: NodeId| NodeId((p.0 + d) as usize)), ..n }
}

/// The arena of `a` followed by the arena of `b`, whose parent ids move up
/// past the nodes of `a`; no node is active.
pub open spec fn stacked(a: GraphModel, b: GraphModel) -> GraphModel {
    GraphModel { nodes: a.nodes + b.nodes.map_values(|n: NodeModel| shifted(n, a.len())), order: Seq::empty() }
}

impl View for LinkedGraph {
    type V = GraphModel;

    closed spec fn view(&self) -> GraphModel {
        GraphModel { nodes: self.arena@.map_values(|n: GraphNode| n.model()), order: self.order@ }
    }
}

/// Calls `uuid::Uuid::new_v4` and renders the id with `to_string`. The id is
/// random, so nothing is claimed of it.
#[verifier::external_body]
fn new_uid() -> String {
    uuid::Uuid::new_v4().to_string()
}

impl LinkedGraph {
    /// Returns an empty graph.
    pub fn new() -> (r: Self)
        ensures
            r@.wf(),
            r@.nodes.len() == 0,
            r@.order.len() == 0,
    {
        let r = LinkedGraph { arena: Vec::new(), order: Vec::new() };
        proof {
            assert(r@.nodes =~= Seq::<NodeModel>::empty());
        }
        r
    }

    /// Creates a node in the arena and returns its id without adding it to the
    /// active node set.
    ///
    /// Duplicate `parents` are dropped, so the resulting node holds each parent
    /// at most once.
    pub fn add_detached(&mut self, content: NodeContent, parents: &[NodeId]) -> (id: NodeId)
        requires
            old(self)@.wf(),
            old(self)@.len() < usize::MAX,
            forall|k: int| 0 <= k < parents@.len() ==> (#[trigger] parents@[k]).0 < old(self)@.len(),
        ensures
            final(self)@.wf(),
            id.0 == old(self)@.len(),
            final(self)@.order == old(self)@.order,
            final(self)@.nodes.len() == old(self)@.len() + 1,
            final(self)@.nodes.take(id.0 as int) == old(self)@.nodes,
            final(self)@.nodes[id.0 as int].name == content.name@,
            final(self)@.nodes[id.0 as int].params == content.params@,
            final(self)@.nodes[id.0 as int].parents == dedup(parents@),
    {
        let mut unique: Vec<NodeId> = Vec::new();
        let mut i: usize = 0;
        while i < parents.len()
            invariant
                i <= parents@.len(),
                unique@ == dedup(parents@.take(i as int)),
            decreases parents@.len() - i,
        {
            let p = parents[i];
            let mut found = false;
            let mut j: usize = 0;
            while j < unique.len()
                invariant
                    j <= unique@.len(),
                    found <==> unique@.take(j as int).contains(p),
                decreases unique@.len() - j,
            {
                if unique[j] == p {
                    found = true;
                }
                proof {
                    let t = unique@.take(j as int);
                    assert(unique@.take(j + 1) =~= t.push(unique@[j as int]));
                    if t.push(unique@[j as int]).contains(p) && !t.contains(p) {
                        let k = choose|k: int| 0 <= k < t.len() + 1 && t.push(unique@[j as int])[k] == p;
                        if k < t.len() {
                            assert(t[k] == p);
                        }
                    }
                    if t.contains(p) {
                        let k = choose|k: int| 0 <= k < t.len() && t[k] == p;
                        assert(t.push(unique@[j as int])[k] == p);
                    }
                    if unique@[j as int] == p {
                        assert(t.push(unique@[j as int])[t.len() as int] == p);
                    }
                }
                j = j + 1;
            }
            proof {
                assert(unique@.take(unique@.len() as int) =~= unique@);
                assert(parents@.take(i + 1).drop_last() =~= parents@.take(i as int));
            }
            if !found {
                unique.push(p);
            }
            i = i + 1;
        }
        proof {
            assert(parents@.take(parents@.len() as int) =~= parents@);
            lemma_dedup(parents@);
        }
        let id = NodeId(self.arena.len());
        let uid = new_uid();
        self.arena.push(GraphNode { uid, content, parents: unique });
        proof {
            assert(self@.nodes.take(id.0 as int) =~= old(self)@.nodes);
            assert forall|a: int, k: int|
                0 <= a < self@.nodes.len() && 0 <= k < self@.nodes[a].parents.len() implies (
            #[trigger] self@.nodes[a].parents[k]).0 < self@.nodes.len() by {
                if a < id.0 {
                    assert(self@.nodes[a] == old(self)@.nodes[a]);
                } else {
                    let y = self@.nodes[a].parents[k];
                    assert(dedup(parents@)[k] == y);
                    assert(dedup(parents@).contains(y));
                    assert(parents@.contains(y));
                    let q = choose|q: int| 0 <= q < parents@.len() && parents@[q] == y;
                    assert(parents@[q].0 < old(self)@.len());
                }
            }
        }
        id
    }

    /// Number of nodes in the arena, active or not.
    pub fn arena_len(&self) -> (r: usize)
        ensures
            r == self@.len(),
    {
        self.arena.len()
    }

    /// Whether the graph is well formed: every parent and every active node
    /// is an arena node, and no node is active twice.
    pub fn check_wf(&self) -> (r: bool)
        ensures
            r == self@.wf(),
    {
        let n = self.arena.len();
        let mut i: usize = 0;
        while i < n
            invariant
                n == self@.len(),
                i <= n,
                forall|a: int, k: int|
                    0 <= a < i && 0 <= k < self@.nodes[a].parents.len() ==> (#[trigger] self@.nodes[a].parents[k]).0 < n,
            decreases n - i,
        {
            let ps = &self.arena[i].parents;
            proof {
                assert(ps@ == self@.nodes[i as int].parents);
            }
            let mut k: usize = 0;
            while k < ps.len()
                invariant
                    n == self@.len(),
                    i < n,
                    ps@ == self@.nodes[i as int].parents,
                    k <= ps@.len(),
                    forall|t: int| 0 <= t < k ==> (#[trigger] ps@[t]).0 < n,
                decreases ps@.len() - k,
            {
                if ps[k].0 >= n {
                    proof {
                        assert(self@.nodes[i as int].parents[k as int].0 >= n);
                    }
                    return false;
                }
                k = k + 1;
            }
            i = i + 1;
        }
        let mut marks: Vec<bool> = Vec::new();
        let mut j: usize = 0;
        while j < n
            invariant
                j <= n,
                marks@.len() == j,
                forall|t: int| 0 <= t < j ==> !marks@[t],
            decreases n - j,
        {
            marks.push(false);
            j = j + 1;
        }
        let mut q: usize = 0;
        while q < self.order.len()
            invariant
                n == self@.len(),
                marks@.len() == n,
                q <= self@.order.len(),
                forall|a: int, k: int|
                    0 <= a < n && 0 <= k < self@.nodes[a].parents.len() ==> (#[trigger] self@.nodes[a].parents[k]).0 < n,
                forall|t: int| 0 <= t < q ==> (#[trigger] self@.order[t]).0 < n,
                forall|a: int, b: int| 0 <= a < b < q ==> self@.order[a] != self@.order[b],
                forall|t: int| 0 <= t < n ==> marks@[t] == self@.order.take(q as int).contains(NodeId(t as usize)),
            decreases self@.order.len() - q,
        {
            let x = self.order[q];
            if x.0 >= n {
                return false;
            }
            if marks[x.0] {
                proof {
                    assert(NodeId(x.0) == x);
                    let t0 = self@.order.take(q as int);
                    let a = choose|a: int| 0 <= a < t0.len() && #[trigger] t0[a] == x;
                    assert(self@.order[a] == self@.order[q as int]);
                    assert(!self@.order.no_duplicates());
                }
                return false;
            }
            let ghost m0 = marks@;
            marks.set(x.0, true);
            proof {
                assert(self@.order.take(q + 1) =~= self@.order.take(q as int).push(x));
                assert forall|t: int| 0 <= t < n implies marks@[t] == self@.order.take(q + 1).contains(NodeId(t as usize)) by {
                    if t == x.0 {
                        assert(NodeId(t as usize) == x);
                        assert(self@.order.take(q + 1)[q as int] == x);
                    } else {
                        assert(NodeId(t as usize) != x);
                        let t1 = self@.order.take(q + 1);
                        let t0 = self@.order.take(q as int);
                        if t1.contains(NodeId(t as usize)) {
                            let a = choose|a: int| 0 <= a < t1.len() && #[trigger] t1[a] == NodeId(t as usize);
                            assert(t0[a] == NodeId(t as usize));
                        }
                        if t0.contains(NodeId(t as usize)) {
                            let a = choose|a: int| 0 <= a < t0.len() && #[trigger] t0[a] == NodeId(t as usize);
                            assert(t1[a] == NodeId(t as usize));
                        }
                    }
                }
                assert forall|a: int, b: int| 0 <= a < b < q + 1 implies self@.order[a] != self@.order[b] by {
                    if b == q {
                        if self@.order[a] == x {
                            assert(self@.order.take(q as int)[a] == x);
                            assert(m0[x.0 as int]);
                        }
                    }
                }
            }
            q = q + 1;
        }
        true
    }

    /// Returns the name of the node with the given id.
    pub fn name(&self, id: NodeId) -> (r: &String)
        requires
            id.0 < self@.len(),
        ensures
            r@ == self@.nodes[id.0 as int].name,
    {
        &self.arena[id.0].content.name
    }

    /// Returns the unique identifier of the node with the given id.
    pub fn uid(&self, id: NodeId) -> (r: &String)
        requires
            id.0 < self@.len(),
        ensures
            r@ == self@.nodes[id.0 as int].uid,
    {
        &self.arena[id.0].uid
    }

    /// Returns the content of the node with the given id.
    pub fn content(&self, id: NodeId) -> (r: &NodeContent)
        requires
            id.0 < self@.len(),
        ensures
            r.name@ == self@.nodes[id.0 as int].name,
            r.params@ == self@.nodes[id.0 as int].params,
    {
        &self.arena[id.0].content
    }

    /// Returns the parents of the node with the given id.
    pub fn parents_of(&self, id: NodeId) -> (r: &Vec<NodeId>)
        requires
            id.0 < self@.len(),
        ensures
            r@ == self@.parents(id),
    {
        &self.arena[id.0].parents
    }

    /// Returns the active nodes in order.
    pub fn nodes(&self) -> (r: Vec<NodeId>)
        ensures
            r@ == self@.order,
    {
        self.order.clone()
    }

    /// Returns the number of active nodes.
    pub fn length(&self) -> (r: usize)
        ensures
            r == self@.order.len(),
    {
        self.order.len()
    }

    /// Returns `true` when the graph has no active nodes.
    pub fn is_empty(&self) -> (r: bool)
        ensures
            r == (self@.order.len() == 0),
    {
        self.order.len() == 0
    }

    /// Returns `true` when `id` is an active node.
    pub fn contains(&self, id: NodeId) -> (r: bool)
        ensures
            r == self@.is_active(id),
    {
        let mut i: usize = 0;
        while i < self.order.len()
            invariant
                i <= self@.order.len(),
                forall|k: int| 0 <= k < i ==> self@.order[k] != id,
            decreases self@.order.len() - i,
        {
            if self.order[i] == id {
                return true;
            }
            i = i + 1;
        }
        false
    }

    /// Returns `true` when `parent` is listed among the parents of `child`.
    pub fn has_parent(&self, child: NodeId, parent: NodeId) -> (r: bool)
        requires
            child.0 < self@.len(),
        ensures
            r == self@.has_parent(child, parent),
    {
        let ps = &self.arena[child.0].parents;
        let mut i: usize = 0;
        while i < ps.len()
            invariant
                ps@ == self@.parents(child),
                i <= ps@.len(),
                forall|k: int| 0 <= k < i ==> ps@[k] != parent,
            decreases ps@.len() - i,
        {
            if ps[i] == parent {
                return true;
            }
            i = i + 1;
        }
        false
    }

    /// Returns the children of `node`: active nodes that list `node` as a parent.
    pub fn node_children(&self, node: NodeId) -> (r: Vec<NodeId>)
        requires
            self@.wf(),
        ensures
            r@ == self@.children(node),
    {
        let ghost pred = self@.child_pred(node);
        let mut r: Vec<NodeId> = Vec::new();
        let mut i: usize = 0;
        while i < self.order.len()
            invariant
                self@.wf(),
                i <= self@.order.len(),
                r@ == self@.order.take(i as int).filter(pred),
                pred == self@.child_pred(node),
            decreases self@.order.len() - i,
        {
            let c = self.order[i];
            let b = self.has_parent(c, node);
            if b {
                r.push(c);
            }
            proof {
                assert(pred(c) == b);
                assert(self@.order.take(i + 1) =~= self@.order.take(i as int).push(c));
                self@.order.take(i as int).lemma_filter_push(c, pred);
            }
            i = i + 1;
        }
        proof {
            assert(self@.order.take(self@.order.len() as int) =~= self@.order);
        }
        r
    }

    /// Returns the active nodes with no children, i.e. the outputs of the graph.
    pub fn root_nodes(&self) -> (r: Vec<NodeId>)
        requires
            self@.wf(),
        ensures
            r@ == self@.roots(),
    {
        let ghost pred = self@.root_pred();
        let mut r: Vec<NodeId> = Vec::new();
        let mut i: usize = 0;
        while i < self.order.len()
            invariant
                self@.wf(),
                i <= self@.order.len(),
                r@ == self@.order.take(i as int).filter(pred),
                pred == self@.root_pred(),
            decreases self@.order.len() - i,
        {
            let x = self.order[i];
            let children = self.node_children(x);
            if children.len() == 0 {
                r.push(x);
            }
            proof {
                assert(self@.order.take(i + 1) =~= self@.order.take(i as int).push(x));
                self@.order.take(i as int).lemma_filter_push(x, pred);
            }
            i = i + 1;
        }
        proof {
            assert(self@.order.take(self@.order.len() as int) =~= self@.order);
        }
        r
    }

    /// Returns the first root node, if the graph has any.
    pub fn root_node(&self) -> (r: Option<NodeId>)
        requires
            self@.wf(),
        ensures
            r == (if self@.roots().len() > 0 {
                Some(self@.roots()[0])
            } else {
                None::<NodeId>
            }),
    {
        let roots = self.root_nodes();
        if roots.len() > 0 {
            Some(roots[0])
        } else {
            None
        }
    }

    /// Returns every edge as a `(parent, child)` pair, in node order.
    pub fn get_edges(&self) -> (r: Vec<(NodeId, NodeId)>)
        requires
            self@.wf(),
        ensures
            r@ == self@.edges(),
    {
        let mut edges: Vec<(NodeId, NodeId)> = Vec::new();
        let mut i: usize = 0;
        while i < self.order.len()
            invariant
                self@.wf(),
                i <= self@.order.len(),
                edges@ == self@.edges_upto(i as int),
            decreases self@.order.len() - i,
        {
            let node = self.order[i];
            let ps = &self.arena[node.0].parents;
            let ghost before = edges@;
            let mut j: usize = 0;
            while j < ps.len()
                invariant
                    ps@ == self@.parents(node),
                    j <= ps@.len(),
                    edges@ == before + ps@.take(j as int).map_values(|p: NodeId| (p, node)),
                decreases ps@.len() - j,
            {
                edges.push((ps[j], node));
                proof {
                    assert(ps@.take(j + 1).map_values(|p: NodeId| (p, node)) =~= ps@.take(j as int).map_values(
                        |p: NodeId| (p, node),
                    ).push((ps@[j as int], node)));
                }
                j = j + 1;
            }
            proof {
                assert(ps@.take(ps@.len() as int) =~= ps@);
            }
            i = i + 1;
        }
        edges
    }

    /// Gives node `id` the uid `uid`, as when a stored graph is read back.
    pub fn set_uid(&mut self, id: NodeId, uid: String)
        requires
            old(self)@.wf(),
            id.0 < old(self)@.len(),
        ensures
            final(self)@.wf(),
            final(self)@.order == old(self)@.order,
            final(self)@.nodes == old(self)@.nodes.update(
                id.0 as int,
                NodeModel { uid: uid@, ..old(self)@.nodes[id.0 as int] },
            ),
    {
        self.arena[id.0].uid = uid;
        proof {
            assert(self@.nodes =~= old(self)@.nodes.update(
                id.0 as int,
                NodeModel { uid: uid@, ..old(self)@.nodes[id.0 as int] },
            ));
            assert forall|i: int, k: int|
                0 <= i < self@.nodes.len() && 0 <= k < self@.nodes[i].parents.len() implies (
            #[trigger] self@.nodes[i].parents[k]).0 < self@.nodes.len() by {
                assert(self@.nodes[i].parents == old(self)@.nodes[i].parents);
            }
        }
    }

    /// Replaces the parents of `id` by `parents`.
    pub fn set_parents(&mut self, id: NodeId, parents: Vec<NodeId>)
        requires
            old(self)@.wf(),
            id.0 < old(self)@.len(),
            old(self)@.valid_ids(parents@),
        ensures
            final(self)@ == old(self)@.with_parents(id, parents@),
            final(self)@.wf(),
    {
        let ghost ps = parents@;
        self.arena[id.0].parents = parents;
        proof {
            assert(self@.nodes =~= old(self)@.with_parents(id, ps).nodes);
            assert forall|i: int, k: int|
                0 <= i < self@.nodes.len() && 0 <= k < self@.nodes[i].parents.len() implies (
            #[trigger] self@.nodes[i].parents[k]).0 < self@.nodes.len() by {
                if i != id.0 {
                    assert(self@.nodes[i] == old(self)@.nodes[i]);
                }
            }
        }
    }

    /// Adds an edge `parent -> child` by registering `parent` as a parent of
    /// `child`, unless it is one already.
    pub fn connect_nodes(&mut self, parent: NodeId, child: NodeId)
        requires
            old(self)@.wf(),
            parent.0 < old(self)@.len(),
            child.0 < old(self)@.len(),
        ensures
            final(self)@.wf(),
            final(self)@ == (if old(self)@.has_parent(child, parent) {
                old(self)@
            } else {
                old(self)@.with_parents(child, old(self)@.parents(child).push(parent))
            }),
    {
        if self.has_parent(child, parent) {
            return;
        }
        let mut ps = self.arena[child.0].parents.clone();
        proof {
            assert(ps@ =~= self@.parents(child));
        }
        ps.push(parent);
        self.set_parents(child, ps);
    }

    /// Removes `node`, reconnecting edges according to `reconnect`. The
    /// active nodes that list `node` as a parent drop it whether or not
    /// `node` itself is active.
    pub fn delete_node(&mut self, node: NodeId, reconnect: ReconnectType)
        requires
            old(self)@.wf(),
            node.0 < old(self)@.len(),
        ensures
            final(self)@.wf(),
            final(self)@ == old(self)@.after_delete_node(node, reconnect),
    {
        let ghost g0 = self@;
        let children = self.node_children(node);
        let node_parents = vec_without(&self.arena[node.0].parents, node);
        proof {
            assert(node_parents@ =~= g0.handed_parents(node));
        }
        let do_reconnect = node_parents.len() > 0 && match reconnect {
            ReconnectType::NoReconnect => false,
            ReconnectType::Single => children.len() == 1,
            ReconnectType::All => true,
        };
        let ghost target = g0.after_delete_node(node, reconnect);
        let mut k: usize = 0;
        while k < children.len()
            invariant
                g0.wf(),
                self@.wf(),
                children@ == g0.children(node),
                node_parents@ == g0.handed_parents(node),
                do_reconnect == g0.reconnects(node, reconnect),
                target == g0.after_delete_node(node, reconnect),
                k <= children@.len(),
                self@.order == g0.order,
                self@.nodes.len() == g0.nodes.len(),
                forall|i: int|
                    0 <= i < g0.nodes.len() ==> #[trigger] self@.nodes[i] == if children@.take(
                        k as int,
                    ).contains(NodeId(i as usize)) {
                        target.nodes[i]
                    } else {
                        g0.nodes[i]
                    },
            decreases children@.len() - k,
        {
            let c = children[k];
            proof {
                g0.order.lemma_filter_pred(g0.child_pred(node), k as int);
                assert(g0.children(node).contains(c));
                g0.order.lemma_filter_contains_rev(g0.child_pred(node), c);
                let q = choose|q: int| 0 <= q < g0.order.len() && g0.order[q] == c;
                assert(g0.order[q].0 < g0.nodes.len());
                assert(!children@.take(k as int).contains(c)) by {
                    g0.order.filter(g0.child_pred(node)).lemma_filter_len(|x: NodeId| true);
                    lemma_filter_no_dup(g0.order, g0.child_pred(node));
                    if children@.take(k as int).contains(c) {
                        let j = choose|j: int| 0 <= j < k && children@.take(k as int)[j] == c;
                        assert(children@[j] == children@[k as int]);
                    }
                }
                assert(self@.nodes[c.0 as int] == g0.nodes[c.0 as int]);
            }
            let base = vec_without(&self.arena[c.0].parents, node);
            let newp = if do_reconnect {
                vec_extend_unique(&base, &node_parents)
            } else {
                base
            };
            proof {
                assert forall|j: int| 0 <= j < newp@.len() implies (#[trigger] newp@[j]).0 < self@.nodes.len() by {
                    let y = newp@[j];
                    assert(newp@.contains(y));
                    lemma_without_contains(g0.parents(c), node, y);
                    lemma_extend_unique_contains(without(g0.parents(c), node), g0.handed_parents(node), y);
                    lemma_without_contains(g0.parents(node), node, y);
                    if g0.parents(c).contains(y) {
                        let t = choose|t: int| 0 <= t < g0.parents(c).len() && g0.parents(c)[t] == y;
                        assert(g0.nodes[c.0 as int].parents[t].0 < g0.nodes.len());
                    } else {
                        let t = choose|t: int| 0 <= t < g0.parents(node).len() && g0.parents(node)[t] == y;
                        assert(g0.nodes[node.0 as int].parents[t].0 < g0.nodes.len());
                    }
                }
            }
            self.set_parents(c, newp);
            proof {
                assert(children@.take(k + 1) =~= children@.take(k as int).push(c));
                assert forall|i: int| 0 <= i < g0.nodes.len() implies #[trigger] self@.nodes[i] == if children@.take(
                    k + 1,
                ).contains(NodeId(i as usize)) {
                    target.nodes[i]
                } else {
                    g0.nodes[i]
                } by {
                    let t = children@.take(k as int);
                    if i == c.0 {
                        assert(children@.take(k + 1)[k as int] == c);
                        assert(target.nodes[i].parents == newp@);
                        assert(self@.nodes[i] =~= target.nodes[i]);
                    } else {
                        assert(NodeId(i as usize) != c);
                        if t.push(c).contains(NodeId(i as usize)) {
                            let j = choose|j: int| 0 <= j < k + 1 && t.push(c)[j] == NodeId(i as usize);
                            assert(t[j] == NodeId(i as usize));
                        }
                        if t.contains(NodeId(i as usize)) {
                            let j = choose|j: int| 0 <= j < k && t[j] == NodeId(i as usize);
                            assert(t.push(c)[j] == NodeId(i as usize));
                        }
                    }
                }
            }
            k = k + 1;
        }
        let new_order = vec_without(&self.order, node);
        proof {
            assert(children@.take(children@.len() as int) =~= children@);
            lemma_filter_no_dup(g0.order, ne_pred(node));
            assert forall|j: int| 0 <= j < new_order@.len() implies (#[trigger] new_order@[j]).0 < self@.nodes.len() by {
                let y = new_order@[j];
                assert(new_order@.contains(y));
                lemma_without_contains(g0.order, node, y);
                let t = choose|t: int| 0 <= t < g0.order.len() && g0.order[t] == y;
                assert(g0.order[t].0 < g0.nodes.len());
            }
        }
        self.order = new_order;
        proof {
            assert(self@.nodes =~= target.nodes);
            assert(self@ =~= target);
        }
    }

    /// Adds `id` and, recursively, its parents to the active node set in
    /// pre-order. Nodes that are active already are left where they are.
    pub fn add_node(&mut self, id: NodeId)
        requires
            old(self)@.wf(),
            id.0 < old(self)@.len(),
        ensures
            final(self)@.wf(),
            final(self)@.nodes == old(self)@.nodes,
            final(self)@.order.len() >= old(self)@.order.len(),
            final(self)@.order.take(old(self)@.order.len() as int) == old(self)@.order,
            final(self)@.is_active(id),
            old(self)@.is_active(id) ==> final(self)@ == old(self)@,
            forall|k: int|
                old(self)@.order.len() <= k < final(self)@.order.len() ==> old(self)@.reaches(
                    id,
                    #[trigger] final(self)@.order[k],
                ),
            forall|k: int|
                old(self)@.order.len() <= k < final(self)@.order.len() ==> final(self)@.parents_active(
                    #[trigger] final(self)@.order[k],
                ),
            !old(self)@.is_active(id) ==> final(self)@.order[old(self)@.order.len() as int] == id,
            old(self)@.add_node_result(id, final(self)@),
            forall|k: int|
                old(self)@.order.len() < k < final(self)@.order.len() ==> exists|j: int|
                    old(self)@.order.len() <= j < k && old(self)@.has_parent(
                        final(self)@.order[j],
                        #[trigger] final(self)@.order[k],
                    ),
        decreases old(self)@.len() - old(self)@.order.len(),
    {
        proof {
            lemma_nodup_bounded(self@.order, self@.len());
        }
        if self.contains(id) {
            proof {
                assert(self@.order.take(self@.order.len() as int) =~= self@.order);
            }
            return;
        }
        let ghost g0 = self@;
        self.order.push(id);
        proof {
            assert(self@.order.no_duplicates()) by {
                assert forall|i: int, j: int| 0 <= i < j < self@.order.len() implies self@.order[i]
                    != self@.order[j] by {
                    if j == g0.order.len() {
                        assert(g0.order.contains(g0.order[i]));
                    }
                }
            }
            assert(self@.order.take(g0.order.len() as int) =~= g0.order);
            assert(self@.order[g0.order.len() as int] == id);
            lemma_reaches_self(g0, id);
        }
        let parents = self.arena[id.0].parents.clone();
        let ghost fuel: nat = (g0.nodes.len() - g0.order.len()) as nat;
        proof {
            assert(parents@ =~= g0.parents(id));
            assert(parents@.take(0) =~= Seq::<NodeId>::empty());
        }
        let mut i: usize = 0;
        while i < parents.len()
            invariant
                fuel + g0.order.len() == g0.nodes.len(),
                self@.order == preorder_list(g0.nodes, g0.order.push(id), parents@.take(i as int), fuel),
                g0 == old(self)@,
                g0.wf(),
                self@.wf(),
                !g0.is_active(id),
                id.0 < g0.len(),
                parents@ == g0.parents(id),
                i <= parents@.len(),
                self@.nodes == g0.nodes,
                self@.order.len() > g0.order.len(),
                self@.order.take(g0.order.len() as int) == g0.order,
                self@.order[g0.order.len() as int] == id,
                forall|j: int| 0 <= j < i ==> self@.is_active(#[trigger] parents@[j]),
                forall|k: int|
                    g0.order.len() <= k < self@.order.len() ==> g0.reaches(id, #[trigger] self@.order[k]),
                forall|k: int|
                    g0.order.len() < k < self@.order.len() ==> self@.parents_active(#[trigger] self@.order[k]),
                forall|k: int|
                    g0.order.len() < k < self@.order.len() ==> exists|j: int|
                        g0.order.len() <= j < k && g0.has_parent(self@.order[j], #[trigger] self@.order[k]),
            decreases parents@.len() - i,
        {
            let p = parents[i];
            let ghost g1 = self@;
            proof {
                assert(p == g0.nodes[id.0 as int].parents[i as int]);
                assert(0 <= (id.0 as int) < g0.nodes.len());
                assert(0 <= (i as int) < g0.nodes[id.0 as int].parents.len());
                assert(g0.nodes[id.0 as int].parents[i as int].0 < g0.nodes.len());
                lemma_nodup_bounded(self@.order, self@.len());
            }
            self.add_node(p);
            proof {
                let g2 = self@;
                assert(parents@.take(i + 1).drop_last() =~= parents@.take(i as int));
                assert(parents@.take(i + 1).last() == p);
                assert forall|k: int| 0 <= k < g1.order.len() implies (#[trigger] g1.order[k]).0 < g0.nodes.len() by {}
                assert(g1.order.len() > g0.order.len());
                lemma_preorder_add(g0.nodes, g1.order, p, fuel, (g0.nodes.len() + 1 - g1.order.len()) as nat);
                assert forall|k: int| 0 <= k < g1.order.len() implies g2.order[k] == #[trigger] g1.order[k] by {
                    assert(g2.order.take(g1.order.len() as int)[k] == g2.order[k]);
                }
                assert(self@.order.take(g0.order.len() as int) =~= g0.order) by {
                    assert forall|k: int| 0 <= k < g0.order.len() implies self@.order[k] == g0.order[k] by {
                        assert(g1.order.take(g0.order.len() as int)[k] == g1.order[k]);
                    }
                }
                assert forall|j: int| 0 <= j < i + 1 implies self@.is_active(#[trigger] parents@[j]) by {
                    if j < i {
                        assert(g1.is_active(parents@[j]));
                        let q = choose|q: int| 0 <= q < g1.order.len() && g1.order[q] == parents@[j];
                        assert(g2.order[q] == parents@[j]);
                    }
                }
                assert forall|k: int| g0.order.len() <= k < self@.order.len() implies g0.reaches(
                    id,
                    #[trigger] self@.order[k],
                ) by {
                    if k < g1.order.len() {
                        assert(g2.order[k] == g1.order[k]);
                    } else {
                        assert(g1.reaches(p, g2.order[k]));
                        lemma_reaches_same_nodes(g1, g0, p, g2.order[k]);
                        assert(g0.has_parent(id, p)) by {
                            assert(g0.parents(id)[i as int] == p);
                        }
                        lemma_reaches_step(g0, id, p, g2.order[k]);
                    }
                }
                assert forall|k: int| g0.order.len() < k < self@.order.len() implies exists|j: int|
                    g0.order.len() <= j < k && g0.has_parent(self@.order[j], #[trigger] self@.order[k]) by {
                    if k < g1.order.len() {
                        assert(g2.order[k] == g1.order[k]);
                        let j = choose|j: int| g0.order.len() <= j < k && g0.has_parent(g1.order[j], g1.order[k]);
                        assert(g2.order[j] == g1.order[j]);
                    } else if k == g1.order.len() {
                        assert(g2.order[k] == p);
                        assert(g2.order[g0.order.len() as int] == id) by {
                            assert(g1.order[g0.order.len() as int] == id);
                        }
                        assert(g0.has_parent(id, p)) by {
                            assert(g0.parents(id)[i as int] == p);
                        }
                    } else {
                        let j = choose|j: int| g1.order.len() <= j < k && g1.has_parent(g2.order[j], g2.order[k]);
                    }
                }
                assert forall|k: int| g0.order.len() < k < self@.order.len() implies self@.parents_active(
                    #[trigger] self@.order[k],
                ) by {
                    let x = g2.order[k];
                    if k < g1.order.len() {
                        assert(g1.order[k] == x);
                        assert(g1.parents_active(x));
                        assert forall|j: int| 0 <= j < g2.parents(x).len() implies g2.is_active(
                            #[trigger] g2.parents(x)[j],
                        ) by {
                            assert(g1.is_active(g1.parents(x)[j]));
                            let q = choose|q: int| 0 <= q < g1.order.len() && g1.order[q] == g1.parents(x)[j];
                            assert(g2.order[q] == g1.order[q]);
                        }
                    }
                }
            }
            i = i + 1;
        }
        proof {
            assert(parents@.take(parents@.len() as int) =~= parents@);
            lemma_nodup_bounded(g0.order, g0.nodes.len());
            assert(!g0.order.contains(id));
            assert(added_order(g0, id) == preorder_list(g0.nodes, g0.order.push(id), g0.nodes[id.0 as int].parents, fuel));
            let g = self@;
            assert forall|k: int| g0.order.len() <= k < g.order.len() implies g.parents_active(
                #[trigger] g.order[k],
            ) by {
                if k == g0.order.len() {
                    assert forall|j: int| 0 <= j < g.parents(id).len() implies g.is_active(
                        #[trigger] g.parents(id)[j],
                    ) by {
                        assert(parents@[j] == g.parents(id)[j]);
                    }
                }
            }
        }
    }


    /// Removes the nodes listed in `s` from the active set and from the
    /// parents of the remaining active nodes.
    pub fn remove_set(&mut self, s: &Vec<NodeId>)
        requires
            old(self)@.wf(),
        ensures
            final(self)@.wf(),
            final(self)@ == old(self)@.after_remove_set(s@),
    {
        let ghost g0 = self@;
        let ghost target = g0.after_remove_set(s@);
        let ord = self.nodes();
        let mut k: usize = 0;
        while k < ord.len()
            invariant
                g0.wf(),
                self@.wf(),
                ord@ == g0.order,
                target == g0.after_remove_set(s@),
                k <= ord@.len(),
                self@.order == g0.order,
                self@.nodes.len() == g0.nodes.len(),
                forall|i: int|
                    0 <= i < g0.nodes.len() ==> #[trigger] self@.nodes[i] == if ord@.take(k as int).contains(
                        NodeId(i as usize),
                    ) {
                        target.nodes[i]
                    } else {
                        g0.nodes[i]
                    },
            decreases ord@.len() - k,
        {
            let x = ord[k];
            proof {
                assert(g0.order[k as int].0 < g0.nodes.len());
                assert(!ord@.take(k as int).contains(x)) by {
                    if ord@.take(k as int).contains(x) {
                        let j = choose|j: int| 0 <= j < k && ord@.take(k as int)[j] == x;
                        assert(ord@[j] == ord@[k as int]);
                    }
                }
                assert(self@.nodes[x.0 as int] == g0.nodes[x.0 as int]);
                assert(g0.is_active(x)) by {
                    assert(g0.order[k as int] == x);
                }
                assert(NodeId(x.0) == x);
            }
            if !vec_contains(s, x) {
                let newp = vec_filter_not_in(&self.arena[x.0].parents, s);
                proof {
                    assert forall|j: int| 0 <= j < newp@.len() implies (#[trigger] newp@[j]).0 < self@.nodes.len() by {
                        let y = newp@[j];
                        assert(newp@.contains(y));
                        lemma_filter_contains_iff(g0.parents(x), not_in_pred(s@), y);
                        let t = choose|t: int| 0 <= t < g0.parents(x).len() && g0.parents(x)[t] == y;
                        assert(g0.nodes[x.0 as int].parents[t].0 < g0.nodes.len());
                    }
                }
                self.set_parents(x, newp);
            }
            proof {
                let t = ord@.take(k as int);
                assert(ord@.take(k + 1) =~= t.push(x));
                assert forall|i: int| 0 <= i < g0.nodes.len() implies #[trigger] self@.nodes[i] == if ord@.take(
                    k + 1,
                ).contains(NodeId(i as usize)) {
                    target.nodes[i]
                } else {
                    g0.nodes[i]
                } by {
                    if i == x.0 {
                        assert(t.push(x)[k as int] == x);
                        assert(self@.nodes[i] =~= target.nodes[i]);
                    } else {
                        assert(NodeId(i as usize) != x);
                        if t.push(x).contains(NodeId(i as usize)) {
                            let j = choose|j: int| 0 <= j < k + 1 && t.push(x)[j] == NodeId(i as usize);
                            assert(t[j] == NodeId(i as usize));
                        }
                        if t.contains(NodeId(i as usize)) {
                            let j = choose|j: int| 0 <= j < k && t[j] == NodeId(i as usize);
                            assert(t.push(x)[j] == NodeId(i as usize));
                        }
                    }
                }
            }
            k = k + 1;
        }
        let new_order = vec_filter_not_in(&self.order, s);
        proof {
            assert(ord@.take(ord@.len() as int) =~= ord@);
            lemma_filter_no_dup(g0.order, not_in_pred(s@));
            assert forall|j: int| 0 <= j < new_order@.len() implies (#[trigger] new_order@[j]).0 < self@.nodes.len() by {
                let y = new_order@[j];
                assert(new_order@.contains(y));
                lemma_filter_contains_iff(g0.order, not_in_pred(s@), y);
                let t = choose|t: int| 0 <= t < g0.order.len() && g0.order[t] == y;
                assert(g0.order[t].0 < g0.nodes.len());
            }
            assert forall|i: int| 0 <= i < g0.nodes.len() implies #[trigger] self@.nodes[i] == target.nodes[i] by {
                let x = NodeId(i as usize);
                if g0.is_active(x) {
                    let q = choose|q: int| 0 <= q < g0.order.len() && g0.order[q] == x;
                    assert(ord@.contains(x));
                } else {
                    if ord@.contains(x) {
                    }
                }
            }
        }
        self.order = new_order;
        proof {
            assert(self@.nodes =~= target.nodes);
            assert(self@ =~= target);
        }
    }

    /// Repoints the children of `old_node` so that they reference `new_node`.
    pub fn actualise_old_node_children(&mut self, old_node: NodeId, new_node: NodeId)
        requires
            old(self)@.wf(),
            new_node.0 < old(self)@.len(),
        ensures
            final(self)@.wf(),
            final(self)@ == old(self)@.after_actualise(old_node, new_node),
    {
        let ghost g0 = self@;
        let ghost target = g0.after_actualise(old_node, new_node);
        let children = self.node_children(old_node);
        let mut k: usize = 0;
        while k < children.len()
            invariant
                g0.wf(),
                self@.wf(),
                new_node.0 < g0.len(),
                children@ == g0.children(old_node),
                target == g0.after_actualise(old_node, new_node),
                k <= children@.len(),
                self@.order == g0.order,
                self@.nodes.len() == g0.nodes.len(),
                forall|i: int|
                    0 <= i < g0.nodes.len() ==> #[trigger] self@.nodes[i] == if children@.take(k as int).contains(
                        NodeId(i as usize),
                    ) {
                        target.nodes[i]
                    } else {
                        g0.nodes[i]
                    },
            decreases children@.len() - k,
        {
            let c = children[k];
            proof {
                g0.order.lemma_filter_pred(g0.child_pred(old_node), k as int);
                assert(g0.children(old_node).contains(c));
                g0.order.lemma_filter_contains_rev(g0.child_pred(old_node), c);
                let q = choose|q: int| 0 <= q < g0.order.len() && g0.order[q] == c;
                assert(g0.order[q].0 < g0.nodes.len());
                assert(!children@.take(k as int).contains(c)) by {
                    lemma_filter_no_dup(g0.order, g0.child_pred(old_node));
                    if children@.take(k as int).contains(c) {
                        let j = choose|j: int| 0 <= j < k && children@.take(k as int)[j] == c;
                        assert(children@[j] == children@[k as int]);
                    }
                }
                assert(self@.nodes[c.0 as int] == g0.nodes[c.0 as int]);
            }
            let ps = &self.arena[c.0].parents;
            let mut newp: Vec<NodeId> = Vec::new();
            let mut j: usize = 0;
            while j < ps.len()
                invariant
                    ps@ == g0.parents(c),
                    j <= ps@.len(),
                    newp@ == replace_id(ps@.take(j as int), old_node, new_node),
                decreases ps@.len() - j,
            {
                let y = ps[j];
                if y == old_node {
                    newp.push(new_node);
                } else {
                    newp.push(y);
                }
                proof {
                    assert(replace_id(ps@.take(j + 1), old_node, new_node) =~= replace_id(
                        ps@.take(j as int),
                        old_node,
                        new_node,
                    ).push(if y == old_node { new_node } else { y }));
                }
                j = j + 1;
            }
            proof {
                assert(ps@.take(ps@.len() as int) =~= ps@);
                assert forall|t: int| 0 <= t < newp@.len() implies (#[trigger] newp@[t]).0 < self@.nodes.len() by {
                    assert(g0.nodes[c.0 as int].parents[t].0 < g0.nodes.len());
                }
            }
            self.set_parents(c, newp);
            proof {
                let t = children@.take(k as int);
                assert(children@.take(k + 1) =~= t.push(c));
                assert forall|i: int| 0 <= i < g0.nodes.len() implies #[trigger] self@.nodes[i] == if children@.take(
                    k + 1,
                ).contains(NodeId(i as usize)) {
                    target.nodes[i]
                } else {
                    g0.nodes[i]
                } by {
                    if i == c.0 {
                        assert(t.push(c)[k as int] == c);
                        assert(self@.nodes[i] =~= target.nodes[i]);
                    } else {
                        assert(NodeId(i as usize) != c);
                        if t.push(c).contains(NodeId(i as usize)) {
                            let j = choose|j: int| 0 <= j < k + 1 && t.push(c)[j] == NodeId(i as usize);
                            assert(t[j] == NodeId(i as usize));
                        }
                        if t.contains(NodeId(i as usize)) {
                            let j = choose|j: int| 0 <= j < k && t[j] == NodeId(i as usize);
                            assert(t.push(c)[j] == NodeId(i as usize));
                        }
                    }
                }
            }
            k = k + 1;
        }
        proof {
            assert(children@.take(children@.len() as int) =~= children@);
            assert(self@.nodes =~= target.nodes);
            assert(self@ =~= target);
        }
    }


    /// An exact copy of this graph, node ids and uids included.
    pub fn duplicate(&self) -> (r: Self)
        ensures
            r@ == self@,
    {
        let mut arena: Vec<GraphNode> = Vec::new();
        let mut i: usize = 0;
        while i < self.arena.len()
            invariant
                i <= self.arena@.len(),
                arena@.len() == i,
                forall|k: int| 0 <= k < i ==> (#[trigger] arena@[k]).model() == self.arena@[k].model(),
            decreases self.arena@.len() - i,
        {
            let node = &self.arena[i];
            let parents = node.parents.clone();
            proof {
                assert(parents@ =~= node.parents@);
            }
            arena.push(GraphNode { uid: node.uid.clone(), content: node.content.duplicate(), parents });
            i = i + 1;
        }
        let r = LinkedGraph { arena, order: self.order.clone() };
        proof {
            assert(r@.nodes =~= self@.nodes);
            assert(r@.order =~= self@.order);
            assert(r@ =~= self@);
        }
        r
    }

    /// A graph whose arena holds copies of the nodes of `a` and then of `b`
    /// (the parents of the latter moved up past the nodes of `a`), with no
    /// node active.
    pub fn stack(a: &LinkedGraph, b: &LinkedGraph) -> (r: Self)
        requires
            a@.wf(),
            b@.wf(),
            a@.len() + b@.len() <= usize::MAX,
        ensures
            r@ == stacked(a@, b@),
            r@.wf(),
    {
        let base = a.arena.len();
        let mut arena: Vec<GraphNode> = Vec::new();
        let mut i: usize = 0;
        while i < a.arena.len()
            invariant
                i <= a.arena@.len(),
                arena@.len() == i,
                forall|k: int| 0 <= k < i ==> (#[trigger] arena@[k]).model() == a.arena@[k].model(),
            decreases a.arena@.len() - i,
        {
            let node = &a.arena[i];
            let parents = node.parents.clone();
            proof {
                assert(parents@ =~= node.parents@);
            }
            arena.push(GraphNode { uid: node.uid.clone(), content: node.content.duplicate(), parents });
            i = i + 1;
        }
        let mut j: usize = 0;
        while j < b.arena.len()
            invariant
                base == a@.len(),
                base + b@.len() <= usize::MAX,
                b@.wf(),
                j <= b.arena@.len(),
                arena@.len() == base + j,
                forall|k: int| 0 <= k < base ==> (#[trigger] arena@[k]).model() == a.arena@[k].model(),
                forall|k: int| 0 <= k < j ==> (#[trigger] arena@[base + k]).model() == shifted(b.arena@[k].model(), base as nat),
            decreases b.arena@.len() - j,
        {
            let node = &b.arena[j];
            let mut parents: Vec<NodeId> = Vec::new();
            let mut t: usize = 0;
            while t < node.parents.len()
                invariant
                    base == a@.len(),
                    base + b@.len() <= usize::MAX,
                    b@.wf(),
                    j < b@.len(),
                    node.model() == b@.nodes[j as int],
                    t <= node.parents@.len(),
                    parents@ == node.parents@.take(t as int).map_values(|p: NodeId| NodeId((p.0 + base) as usize)),
                decreases node.parents@.len() - t,
            {
                let p = node.parents[t];
                proof {
                    assert(b@.nodes[j as int].parents[t as int].0 < b@.len());
                }
                parents.push(NodeId(p.0 + base));
                proof {
                    assert(node.parents@.take(t + 1) =~= node.parents@.take(t as int).push(p));
                    assert(parents@ =~= node.parents@.take(t + 1).map_values(|p: NodeId| NodeId((p.0 + base) as usize)));
                }
                t = t + 1;
            }
            proof {
                assert(node.parents@.take(node.parents@.len() as int) =~= node.parents@);
            }
            let copy = GraphNode { uid: node.uid.clone(), content: node.content.duplicate(), parents };
            proof {
                assert(copy.model() =~= shifted(b.arena@[j as int].model(), base as nat));
            }
            arena.push(copy);
            proof {
                assert forall|k: int| 0 <= k < j + 1 implies (#[trigger] arena@[base + k]).model() == shifted(
                    b.arena@[k].model(),
                    base as nat,
                ) by {
                    if k < j {
                        assert(arena@[base + k] == arena@[base + k]);
                    }
                }
            }
            j = j + 1;
        }
        let r = LinkedGraph { arena, order: Vec::new() };
        proof {
            let want = stacked(a@, b@);
            assert(r@.nodes.len() == want.nodes.len());
            assert forall|k: int| 0 <= k < r@.nodes.len() implies r@.nodes[k] == want.nodes[k] by {
                if k >= base {
                    assert(arena@[base + (k - base)].model() == shifted(b.arena@[k - base].model(), base as nat));
                }
            }
            assert(r@.nodes =~= want.nodes);
            assert(r@.order =~= want.order);
            assert forall|x: int, k: int|
                0 <= x < r@.nodes.len() && 0 <= k < r@.nodes[x].parents.len() implies (#[trigger] r@.nodes[x].parents[k]).0
                < r@.nodes.len() by {
                if x < base {
                    assert(a@.nodes[x].parents[k].0 < a@.len());
                } else {
                    assert(b@.nodes[x - base].parents[k].0 < b@.len());
                }
            }
        }
        r
    }

    /// A copy of this graph whose nodes carry fresh uids.
    pub fn deep_clone(&self) -> (r: Self)
        requires
            self@.wf(),
        ensures
            r@.wf(),
            r@.order == self@.order,
            r@.nodes.len() == self@.nodes.len(),
            forall|k: int|
                0 <= k < self@.nodes.len() ==> {
                    &&& (#[trigger] r@.nodes[k]).name == self@.nodes[k].name
                    &&& r@.nodes[k].params == self@.nodes[k].params
                    &&& r@.nodes[k].parents == self@.nodes[k].parents
                },
    {
        let mut arena: Vec<GraphNode> = Vec::new();
        let mut i: usize = 0;
        while i < self.arena.len()
            invariant
                i <= self.arena@.len(),
                arena@.len() == i,
                forall|k: int|
                    0 <= k < i ==> {
                        &&& (#[trigger] arena@[k]).content.name@ == self.arena@[k].content.name@
                        &&& arena@[k].content.params@ == self.arena@[k].content.params@
                        &&& arena@[k].parents@ == self.arena@[k].parents@
                    },
            decreases self.arena@.len() - i,
        {
            let node = &self.arena[i];
            let parents = node.parents.clone();
            proof {
                assert(parents@ =~= node.parents@);
            }
            arena.push(GraphNode { uid: new_uid(), content: node.content.duplicate(), parents });
            i = i + 1;
        }
        let r = LinkedGraph { arena, order: self.order.clone() };
        proof {
            assert(r@.order =~= self@.order);
            assert forall|a: int, k: int|
                0 <= a < r@.nodes.len() && 0 <= k < r@.nodes[a].parents.len() implies (
            #[trigger] r@.nodes[a].parents[k]).0 < r@.nodes.len() by {
                assert(self@.nodes[a].parents[k].0 < self@.nodes.len());
            }
        }
        r
    }

    /// Appends copies of `x` and all of its ancestors in `src` to this arena and
    /// returns the id of the copy of `x`. The copies carry fresh uids and are
    /// not active.
    pub fn import_subtree(&mut self, src: &LinkedGraph, x: NodeId) -> (r: NodeId)
        requires
            old(self)@.wf(),
            src@.wf(),
            x.0 < src@.len(),
            old(self)@.len() + src@.len() <= usize::MAX,
        ensures
            final(self)@.wf(),
            r.0 == old(self)@.len(),
            exists|v: Seq<NodeId>|
                src@.is_ancestor_listing(x, v) && #[trigger] old(self)@.appended_copies(src@, v, final(self)@),
    {
        let v = collect_ancestors(src, x);
        let base = self.arena.len();
        let ghost g0 = self@;
        proof {
            lemma_nodup_bounded(v@, src@.len());
        }
        let mut k: usize = 0;
        while k < v.len()
            invariant
                g0.wf(),
                src@.wf(),
                base == g0.len(),
                g0.len() + src@.len() <= usize::MAX,
                v@.len() <= src@.len(),
                v@.len() >= 1,
                v@[0] == x,
                v@.no_duplicates(),
                src@.parent_closed(v@),
                forall|t: int| 0 <= t < v@.len() ==> (#[trigger] v@[t]).0 < src@.len(),
                k <= v@.len(),
                self@.order == g0.order,
                self@.nodes.len() == base + k,
                self@.nodes.take(base as int) == g0.nodes,
                forall|t: int|
                    0 <= t < k ==> {
                        &&& (#[trigger] self@.nodes[base + t]).name == src@.nodes[v@[t].0 as int].name
                        &&& self@.nodes[base + t].params == src@.nodes[v@[t].0 as int].params
                        &&& self@.nodes[base + t].parents == src@.parents(v@[t]).map_values(
                            |p: NodeId| NodeId((base + v@.index_of(p)) as usize),
                        )
                    },
            decreases v@.len() - k,
        {
            let y = v[k];
            let content = src.arena[y.0].content.duplicate();
            let ps = &src.arena[y.0].parents;
            let mut mapped: Vec<NodeId> = Vec::new();
            let mut j: usize = 0;
            while j < ps.len()
                invariant
                    src@.wf(),
                    y == v@[k as int],
                    k < v@.len(),
                    y.0 < src@.len(),
                    ps@ == src@.parents(y),
                    base + v@.len() <= usize::MAX,
                    v@.no_duplicates(),
                    src@.parent_closed(v@),
                    j <= ps@.len(),
                    mapped@ == ps@.take(j as int).map_values(|p: NodeId| NodeId((base + v@.index_of(p)) as usize)),
                decreases ps@.len() - j,
            {
                let p = ps[j];
                proof {
                    assert(v@.contains(src@.parents(v@[k as int])[j as int]));
                }
                let mut pos: usize = 0;
                while v[pos] != p
                    invariant
                        v@.contains(p),
                        pos < v@.len(),
                        v@.len() <= usize::MAX,
                        forall|t: int| 0 <= t < pos ==> v@[t] != p,
                    decreases v@.len() - pos,
                {
                    pos = pos + 1;
                    proof {
                        if pos == v@.len() {
                            let t = choose|t: int| 0 <= t < v@.len() && v@[t] == p;
                            assert(false);
                        }
                    }
                }
                proof {
                    let q = v@.index_of(p);
                    assert(0 <= q < v@.len() && v@[q] == p);
                    assert(q == pos);
                }
                mapped.push(NodeId(base + pos));
                proof {
                    assert(ps@.take(j + 1).map_values(|p: NodeId| NodeId((base + v@.index_of(p)) as usize))
                        =~= ps@.take(j as int).map_values(
                        |p: NodeId| NodeId((base + v@.index_of(p)) as usize),
                    ).push(NodeId((base + pos) as usize)));
                }
                j = j + 1;
            }
            proof {
                assert(ps@.take(ps@.len() as int) =~= ps@);
            }
            let ghost before = self@.nodes;
            self.arena.push(GraphNode { uid: new_uid(), content, parents: mapped });
            proof {
                assert(self@.nodes.take(base as int) =~= g0.nodes) by {
                    assert forall|t: int| 0 <= t < base implies self@.nodes[t] == g0.nodes[t] by {
                        assert(before.take(base as int)[t] == before[t]);
                    }
                }
                assert forall|t: int| 0 <= t < k + 1 implies {
                    &&& (#[trigger] self@.nodes[base + t]).name == src@.nodes[v@[t].0 as int].name
                    &&& self@.nodes[base + t].params == src@.nodes[v@[t].0 as int].params
                    &&& self@.nodes[base + t].parents == src@.parents(v@[t]).map_values(
                        |p: NodeId| NodeId((base + v@.index_of(p)) as usize),
                    )
                } by {
                    if t < k {
                        assert(self@.nodes[base + t] == before[base + t]);
                    }
                }
            }
            k = k + 1;
        }
        proof {
            let h = self@;
            assert forall|a: int, t: int|
                0 <= a < h.nodes.len() && 0 <= t < h.nodes[a].parents.len() implies (
            #[trigger] h.nodes[a].parents[t]).0 < h.nodes.len() by {
                if a < base {
                    assert(h.nodes[a] == h.nodes.take(base as int)[a]);
                    assert(g0.nodes[a].parents[t].0 < g0.nodes.len());
                } else {
                    let kk = a - base;
                    assert(0 <= kk < v@.len());
                    assert(h.nodes[base + kk].parents.len() == src@.parents(v@[kk]).len());
                    let pp = src@.parents(v@[kk])[t];
                    assert(v@.contains(pp));
                    let q = v@.index_of(pp);
                    assert(0 <= q < v@.len());
                    assert(h.nodes[base + kk].parents[t] == NodeId((base + q) as usize));
                }
            }
            assert forall|t: int| 0 <= t < v@.len() implies src@.reaches(x, #[trigger] v@[t]) by {}
            assert(src@.is_ancestor_listing(x, v@));
            assert(g0.appended_copies(src@, v@, h));
        }
        NodeId(base)
    }

    /// Deletes `node` together with all of its ancestors from the active set,
    /// pruning the edges that lead to them. When a cycle lies above `node`
    /// its ancestry has no listing, and the graph is left as it is.
    pub fn delete_subtree(&mut self, node: NodeId)
        requires
            old(self)@.wf(),
            node.0 < old(self)@.len(),
        ensures
            final(self)@.wf(),
            old(self)@.delete_subtree_result(node, final(self)@),
    {
        let subtree = match ordered_subnodes_hierarchy(self, node) {
            Ok(v) => v,
            Err(_) => {
                return;
            },
        };
        let ghost g0 = self@;
        self.remove_set(&subtree);
        proof {
            assert(g0.after_remove_set(subtree@) == self@);
        }
    }

    /// Re-sorts the active node set into pre-order from the single root.
    ///
    /// The order is only updated when the graph is single-rooted and acyclic;
    /// otherwise it is left unchanged.
    pub fn sort_nodes(&mut self)
        requires
            old(self)@.wf(),
        ensures
            final(self)@.wf(),
            old(self)@.sort_result(final(self)@),
    {
        let roots = self.root_nodes();
        if roots.len() == 1 && !crate::dag::graph_utils::graph_has_cycle(self) {
            let root = roots[0];
            proof {
                self@.order.lemma_filter_pred(self@.root_pred(), 0);
                self@.order.lemma_filter_contains_rev(self@.root_pred(), root);
                assert(self@.roots().contains(root)) by {
                    assert(self@.roots()[0] == root);
                }
                let q = choose|q: int| 0 <= q < self@.order.len() && self@.order[q] == root;
                assert(self@.order[q].0 < self@.len());
            }
            match ordered_subnodes_hierarchy(self, root) {
                Ok(v) => {
                    let ghost g0 = self@;
                    proof {
                        assert forall|k: int| 0 <= k < v@.len() implies (#[trigger] v@[k]).0 < g0.len() by {
                            assert(g0.reaches(root, v@[k]));
                            let s = choose|s: Seq<NodeId>| #[trigger] g0.is_path(s) && s[0] == root && s.last() == v@[k];
                            assert(s[s.len() - 1].0 < g0.nodes.len());
                        }
                    }
                    self.order = v;
                    proof {
                        assert(self@ =~= g0.with_order(v@));
                    }
                },
                Err(_) => {},
            }
        }
    }

    /// Replaces `old_node` with `new_node`, which inherits the parents of
    /// `old_node`, then re-sorts.
    pub fn update_node(&mut self, old_node: NodeId, new_node: NodeId)
        requires
            old(self)@.wf(),
            old_node.0 < old(self)@.len(),
            new_node.0 < old(self)@.len(),
        ensures
            final(self)@.wf(),
            old(self)@.update_node_result(old_node, new_node, final(self)@),
    {
        let ghost g0 = self@;
        self.actualise_old_node_children(old_node, new_node);
        let ghost g1 = self@;
        let old_parents = self.arena[old_node.0].parents.clone();
        let np = vec_extend_unique(&self.arena[new_node.0].parents, &old_parents);
        proof {
            assert(old_parents@ =~= g1.parents(old_node));
            assert forall|t: int| 0 <= t < np@.len() implies (#[trigger] np@[t]).0 < self@.nodes.len() by {
                let y = np@[t];
                assert(np@.contains(y));
                lemma_extend_unique_contains(g1.parents(new_node), g1.parents(old_node), y);
                if g1.parents(new_node).contains(y) {
                    let q = choose|q: int| 0 <= q < g1.parents(new_node).len() && g1.parents(new_node)[q] == y;
                    assert(g1.nodes[new_node.0 as int].parents[q].0 < g1.nodes.len());
                } else {
                    let q = choose|q: int| 0 <= q < g1.parents(old_node).len() && g1.parents(old_node)[q] == y;
                    assert(g1.nodes[old_node.0 as int].parents[q].0 < g1.nodes.len());
                }
            }
        }
        self.set_parents(new_node, np);
        let new_order = vec_without(&self.order, old_node);
        proof {
            lemma_filter_no_dup(g1.order, ne_pred(old_node));
            assert forall|j: int| 0 <= j < new_order@.len() implies (#[trigger] new_order@[j]).0 < self@.nodes.len() by {
                let y = new_order@[j];
                assert(new_order@.contains(y));
                lemma_without_contains(g1.order, old_node, y);
                let t = choose|t: int| 0 <= t < g1.order.len() && g1.order[t] == y;
                assert(g1.order[t].0 < g1.nodes.len());
            }
        }
        let ghost g15 = self@;
        self.order = new_order;
        proof {
            assert(self@ =~= g15.with_order(new_order@));
            assert(self@ =~= g0.update_node_mid(old_node, new_node));
        }
        self.add_node(new_node);
        let ghost g3 = self@;
        self.sort_nodes();
        proof {
            assert(g3.sort_result(self@));
        }
    }

    /// Replaces the subtree rooted at `old_node` with a copy of the subtree
    /// rooted at `new_node`, then re-sorts.
    pub fn update_subtree(&mut self, old_node: NodeId, new_node: NodeId)
        requires
            old(self)@.wf(),
            old_node.0 < old(self)@.len(),
            new_node.0 < old(self)@.len(),
            2 * old(self)@.len() <= usize::MAX,
        ensures
            final(self)@.wf(),
            old(self)@.update_subtree_result(old_node, new_node, final(self)@),
    {
        let snapshot = self.duplicate();
        let copy = self.import_subtree(&snapshot, new_node);
        let ghost g1 = self@;
        self.actualise_old_node_children(old_node, copy);
        let ghost g2 = self@;
        self.delete_subtree(old_node);
        let ghost g3 = self@;
        self.add_node(copy);
        let ghost g4 = self@;
        self.sort_nodes();
        proof {
            let v = choose|v: Seq<NodeId>| snapshot@.is_ancestor_listing(new_node, v) && #[trigger] old(self)@.appended_copies(snapshot@, v, g1);
            assert(old(self)@.appended_copies(old(self)@, v, g1));
            assert(copy == NodeId(old(self)@.len() as usize));
            assert(g2 == g1.after_actualise(old_node, copy));
            assert(g1.after_actualise(old_node, NodeId(old(self)@.len() as usize)).delete_subtree_result(old_node, g3));
            assert(g3.add_node_result(NodeId(old(self)@.len() as usize), g4));
            assert(g4.sort_result(self@));
        }
    }


    /// Removes the edge `parent -> child`, optionally pruning the nodes that
    /// become disconnected as a result. Nothing happens unless `parent` is a
    /// parent of `child` and both are active.
    pub fn disconnect_nodes(&mut self, parent: NodeId, child: NodeId, clean_up_leftovers: bool)
        requires
            old(self)@.wf(),
            parent.0 < old(self)@.len(),
            child.0 < old(self)@.len(),
        ensures
            final(self)@.wf(),
            !(old(self)@.has_parent(child, parent) && old(self)@.is_active(parent) && old(self)@.is_active(child))
                ==> final(self)@ == old(self)@,
            (old(self)@.has_parent(child, parent) && old(self)@.is_active(parent) && old(self)@.is_active(child))
                ==> {
                let g1 = old(self)@.with_parents(child, without(old(self)@.parents(child), parent));
                if clean_up_leftovers {
                    g1.cleanup_result(parent, final(self)@)
                } else {
                    final(self)@ == g1
                }
            },
    {
        if !self.has_parent(child, parent) {
            return;
        }
        if !self.contains(parent) || !self.contains(child) {
            return;
        }
        let newp = vec_without(&self.arena[child.0].parents, parent);
        proof {
            assert forall|j: int| 0 <= j < newp@.len() implies (#[trigger] newp@[j]).0 < self@.nodes.len() by {
                let y = newp@[j];
                assert(newp@.contains(y));
                lemma_without_contains(self@.parents(child), parent, y);
                let t = choose|t: int| 0 <= t < self@.parents(child).len() && self@.parents(child)[t] == y;
                assert(self@.nodes[child.0 as int].parents[t].0 < self@.nodes.len());
            }
        }
        self.set_parents(child, newp);
        if clean_up_leftovers {
            self.clean_up_leftovers(parent);
        }
    }

    /// Removes `node` when it has no children, and then goes on with its parents.
    pub fn clean_up_leftovers(&mut self, node: NodeId)
        requires
            old(self)@.wf(),
            node.0 < old(self)@.len(),
        ensures
            final(self)@.wf(),
            old(self)@.cleanup_result(node, final(self)@),
    {
        let n = self.arena.len();
        let mut marked: Vec<bool> = Vec::new();
        let mut i: usize = 0;
        while i < n
            invariant
                n == self@.len(),
                i <= n,
                marked@.len() == i,
                forall|k: int| 0 <= k < i ==> !marked@[k],
            decreases n - i,
        {
            marked.push(false);
            i = i + 1;
        }
        let ghost g0 = self@;
        let ghost m0 = marked@;
        proof {
            crate::dag::graph_utils::lemma_count_all_false(marked@);
        }
        self.prune(node, &mut marked);
        proof {
            let g = self@;
            let all = Seq::new(n as nat, |i: int| NodeId(i as usize));
            let s = all.filter(|x: NodeId| marked@[x.0 as int]);
            assert forall|x: NodeId| s.contains(x) <==> (x.0 < n && marked@[x.0 as int]) by {
                lemma_filter_contains_iff(all, |x: NodeId| marked@[x.0 as int], x);
                if x.0 < n {
                    assert(all[x.0 as int] == x);
                }
            }
            lemma_order_marked(g0, g.order, marked@, s);
            assert forall|k: int| 0 <= k < s.len() implies !g.has_child(#[trigger] s[k]) by {
                assert(s.contains(s[k]));
            }
            assert(s.contains(node) || g.has_child(node));
            assert forall|k: int, j: int|
                0 <= k < s.len() && 0 <= j < g0.parents(s[k]).len() implies s.contains(
                #[trigger] g0.parents(s[k])[j],
            ) || g.has_child(g0.parents(s[k])[j]) by {
                assert(s.contains(s[k]));
                assert(g0.nodes[s[k].0 as int].parents[j].0 < n);
                let pp = g0.parents(s[k])[j];
                assert(marked@[pp.0 as int] || g.has_child(pp));
            }
            assert forall|k: int| 0 <= k < s.len() implies #[trigger] s[k] == node || exists|k2: int|
                0 <= k2 < s.len() && g0.has_parent(s[k2], s[k]) by {
                assert(s.contains(s[k]));
                if s[k] != node {
                    let i2 = choose|i2: int| 0 <= i2 < n && marked@[i2] && g0.has_parent(NodeId(i2 as usize), s[k]);
                    assert(s.contains(NodeId(i2 as usize)));
                    let k2 = choose|k2: int| 0 <= k2 < s.len() && s[k2] == NodeId(i2 as usize);
                }
            }
            assert(g0.cleanup_result(node, g));
        }
    }

    /// The recursive step of [`clean_up_leftovers`]: `marked` lists the nodes
    /// already pruned.
    fn prune(&mut self, node: NodeId, marked: &mut Vec<bool>)
        requires
            old(self)@.wf(),
            node.0 < old(self)@.len(),
            old(marked)@.len() == old(self)@.len(),
            forall|i: int| 0 <= i < old(self)@.len() && old(marked)@[i] ==> !old(self)@.is_active(NodeId(i as usize)),
        ensures
            final(self)@.wf(),
            final(self)@.nodes == old(self)@.nodes,
            final(marked)@.len() == old(marked)@.len(),
            forall|i: int| 0 <= i < old(self)@.len() && old(marked)@[i] ==> final(marked)@[i],
            forall|i: int| 0 <= i < old(self)@.len() && final(marked)@[i] ==> !final(self)@.is_active(NodeId(i as usize)),
            final(self)@.order == old(self)@.order.filter(|x: NodeId| !final(marked)@[x.0 as int]),
            forall|i: int|
                0 <= i < old(self)@.len() && final(marked)@[i] && !old(marked)@[i] ==> !final(self)@.has_child(
                    NodeId(i as usize),
                ),
            final(marked)@[node.0 as int] || final(self)@.has_child(node),
            forall|i: int, j: int|
                0 <= i < old(self)@.len() && final(marked)@[i] && !old(marked)@[i] && 0 <= j < old(self)@.parents(
                    NodeId(i as usize),
                ).len() ==> final(marked)@[(#[trigger] old(self)@.parents(NodeId(i as usize))[j]).0 as int]
                    || final(self)@.has_child(old(self)@.parents(NodeId(i as usize))[j]),
            forall|y: NodeId|
                y.0 < old(self)@.len() && old(self)@.has_child(y) ==> final(self)@.has_child(y) || final(marked)@[y.0 as int],
            forall|i: int|
                0 <= i < old(self)@.len() && final(marked)@[i] && !old(marked)@[i] ==> NodeId(i as usize) == node
                    || exists|i2: int|
                    0 <= i2 < old(self)@.len() && final(marked)@[i2] && !old(marked)@[i2] && old(self)@.has_parent(
                        NodeId(i2 as usize),
                        NodeId(i as usize),
                    ),
        decreases old(self)@.len() - old(marked)@.filter(|b: bool| b).len(),
    {
        let ghost g0 = self@;
        let ghost m0 = marked@;
        let ghost n = g0.len();
        let ghost not_m0 = |x: NodeId| !m0[x.0 as int];
        proof {
            crate::dag::graph_utils::lemma_nodup_count_bound(m0);
            lemma_filter_true(g0.order);
            assert forall|x: NodeId| g0.order.contains(x) implies (|x: NodeId| !m0[x.0 as int])(x) == (|x: NodeId| true)(x) by {
                let t = choose|t: int| 0 <= t < g0.order.len() && g0.order[t] == x;
                assert(g0.order[t].0 < n);
                assert(NodeId(x.0 as usize) == x);
            }
            lemma_filter_ext(g0.order, |x: NodeId| !m0[x.0 as int], |x: NodeId| true);
        }
        if marked[node.0] {
            return;
        }
        let ch = self.node_children(node);
        if ch.len() > 0 {
            proof {
                lemma_children_has_child(g0, node);
            }
            return;
        }
        proof {
            lemma_children_has_child(g0, node);
            crate::dag::graph_utils::lemma_count_flip(m0, node.0 as int);
        }
        marked.set(node.0, true);
        let ghost m1 = marked@;
        let new_order = vec_without(&self.order, node);
        proof {
            lemma_filter_no_dup(g0.order, ne_pred(node));
            assert forall|j: int| 0 <= j < new_order@.len() implies (#[trigger] new_order@[j]).0 < n by {
                let y = new_order@[j];
                assert(new_order@.contains(y));
                lemma_without_contains(g0.order, node, y);
                let t = choose|t: int| 0 <= t < g0.order.len() && g0.order[t] == y;
                assert(g0.order[t].0 < n);
            }
            lemma_filter_ext(g0.order, ne_pred(node), |x: NodeId| !m1[x.0 as int]);
        }
        self.order = new_order;
        proof {
            assert forall|i: int| 0 <= i < n && marked@[i] implies !self@.is_active(NodeId(i as usize)) by {
                lemma_without_contains(g0.order, node, NodeId(i as usize));
                if i != node.0 {
                    assert(!g0.is_active(NodeId(i as usize)));
                } else {
                    assert(NodeId(i as usize) == node);
                }
            }
            assert forall|y: NodeId| y.0 < n && g0.has_child(y) && !g0.has_parent(node, y) implies self@.has_child(y) || marked@[y.0 as int] by {
                let c = choose|c: NodeId| g0.is_active(c) && #[trigger] g0.has_parent(c, y);
                if c != node {
                    lemma_without_contains(g0.order, node, c);
                    assert(self@.has_parent(c, y));
                } else {
                    assert(g0.has_parent(node, y));
                }
            }
            assert forall|x: NodeId| self@.is_active(x) implies g0.is_active(x) by {
                lemma_without_contains(g0.order, node, x);
            }
            assert(!self@.has_child(node)) by {
                if self@.has_child(node) {
                    lemma_has_child_shrink(g0, self@, node);
                }
            }
        }
        let ps = self.arena[node.0].parents.clone();
        proof {
            assert(ps@ =~= g0.parents(node));
        }
        let mut j: usize = 0;
        while j < ps.len()
            invariant
                g0 == old(self)@,
                m0 == old(marked)@,
                n == g0.len(),
                g0.wf(),
                node.0 < n,
                ps@ == g0.parents(node),
                j <= ps@.len(),
                self@.wf(),
                self@.nodes == g0.nodes,
                marked@.len() == n,
                m0.len() == n,
                m1.len() == n,
                m1 == m0.update(node.0 as int, true),
                !m0[node.0 as int],
                forall|i: int| 0 <= i < n && m1[i] ==> marked@[i],
                forall|i: int| 0 <= i < n && marked@[i] ==> !self@.is_active(NodeId(i as usize)),
                self@.order == g0.order.filter(|x: NodeId| !marked@[x.0 as int]),
                forall|i: int| 0 <= i < n && marked@[i] && !m0[i] ==> !self@.has_child(NodeId(i as usize)),
                forall|i: int, t: int|
                    0 <= i < n && marked@[i] && !m0[i] && i != node.0 && 0 <= t < g0.parents(NodeId(i as usize)).len()
                        ==> marked@[(#[trigger] g0.parents(NodeId(i as usize))[t]).0 as int] || self@.has_child(
                        g0.parents(NodeId(i as usize))[t],
                    ),
                forall|t: int| 0 <= t < j ==> marked@[(#[trigger] ps@[t]).0 as int] || self@.has_child(ps@[t]),
                forall|y: NodeId| y.0 < n && g0.has_child(y) && !g0.has_parent(node, y) ==> self@.has_child(y) || marked@[y.0 as int],
                forall|i: int|
                    0 <= i < n && marked@[i] && !m0[i] ==> NodeId(i as usize) == node || exists|i2: int|
                        0 <= i2 < n && marked@[i2] && !m0[i2] && g0.has_parent(NodeId(i2 as usize), NodeId(i as usize)),
                m0.filter(|b: bool| b).len() < marked@.filter(|b: bool| b).len(),
            decreases ps@.len() - j,
        {
            let p = ps[j];
            let ghost gA = self@;
            let ghost mA = marked@;
            proof {
                assert(g0.nodes[node.0 as int].parents[j as int].0 < n);
                crate::dag::graph_utils::lemma_nodup_count_bound(mA);
            }
            self.prune(p, marked);
            proof {
                let gB = self@;
                let mB = marked@;
                // the order
                lemma_filter_filter(
                    g0.order,
                    |x: NodeId| !mA[x.0 as int],
                    |x: NodeId| !mB[x.0 as int],
                    |x: NodeId| !mA[x.0 as int] && !mB[x.0 as int],
                );
                assert forall|x: NodeId| g0.order.contains(x) implies (!mA[x.0 as int] && !mB[x.0 as int]) == !mB[x.0 as int] by {
                    let t = choose|t: int| 0 <= t < g0.order.len() && g0.order[t] == x;
                    assert(g0.order[t].0 < n);
                }
                lemma_filter_ext(g0.order, |x: NodeId| !mA[x.0 as int] && !mB[x.0 as int], |x: NodeId| !mB[x.0 as int]);
                assert forall|x: NodeId| gB.is_active(x) implies gA.is_active(x) by {
                    lemma_filter_contains_iff(gA.order, |x: NodeId| !mB[x.0 as int], x);
                }
                assert forall|i: int| 0 <= i < n && mB[i] && !m0[i] implies !gB.has_child(NodeId(i as usize)) by {
                    if mA[i] {
                        if gB.has_child(NodeId(i as usize)) {
                            lemma_has_child_shrink(gA, gB, NodeId(i as usize));
                        }
                    }
                }
                assert forall|i: int, t: int|
                    0 <= i < n && mB[i] && !m0[i] && i != node.0 && 0 <= t < g0.parents(NodeId(i as usize)).len()
                        implies mB[(#[trigger] g0.parents(NodeId(i as usize))[t]).0 as int] || gB.has_child(
                        g0.parents(NodeId(i as usize))[t],
                    ) by {
                    let pp = g0.parents(NodeId(i as usize))[t];
                    assert(g0.nodes[i].parents[t].0 < n);
                    if mA[i] {
                        assert(mA[pp.0 as int] || gA.has_child(pp));
                    } else {
                        assert(gA.parents(NodeId(i as usize))[t] == pp);
                    }
                }
                assert forall|t: int| 0 <= t < j + 1 implies mB[(#[trigger] ps@[t]).0 as int] || gB.has_child(ps@[t]) by {
                    if t < j {
                        assert(mA[ps@[t].0 as int] || gA.has_child(ps@[t]));
                        assert(g0.nodes[node.0 as int].parents[t].0 < n);
                    }
                }
                assert forall|y: NodeId| y.0 < n && g0.has_child(y) && !g0.has_parent(node, y) implies gB.has_child(y) || mB[y.0 as int] by {
                    assert(gA.has_child(y) || mA[y.0 as int]);
                }
                assert forall|i: int| 0 <= i < n && mB[i] && !m0[i] implies NodeId(i as usize) == node || exists|i2: int|
                    0 <= i2 < n && mB[i2] && !m0[i2] && g0.has_parent(NodeId(i2 as usize), NodeId(i as usize)) by {
                    if mA[i] {
                        if NodeId(i as usize) != node {
                            let i2 = choose|i2: int|
                                0 <= i2 < n && mA[i2] && !m0[i2] && g0.has_parent(NodeId(i2 as usize), NodeId(i as usize));
                            assert(mB[i2]);
                        }
                    } else {
                        if NodeId(i as usize) == p {
                            let i2 = node.0 as int;
                            assert(NodeId(i2 as usize) == node);
                            assert(g0.has_parent(node, p)) by {
                                assert(g0.parents(node)[j as int] == p);
                            }
                            assert(m1[i2]);
                            assert(mA[i2]);
                            assert(mB[i2] && !m0[i2]);
                            assert(0 <= i2 < n && mB[i2] && !m0[i2] && g0.has_parent(NodeId(i2 as usize), NodeId(i as usize)));
                        } else {
                            let i2 = choose|i2: int|
                                0 <= i2 < n && mB[i2] && !mA[i2] && gA.has_parent(NodeId(i2 as usize), NodeId(i as usize));
                            if m0[i2] {
                                assert(m1[i2]);
                                assert(mA[i2]);
                            }
                            assert(g0.has_parent(NodeId(i2 as usize), NodeId(i as usize)));
                        }
                    }
                }
                crate::dag::graph_utils::lemma_count_mono(mA, mB);
            }
            j = j + 1;
        }
        proof {
            assert(m1[node.0 as int]);
            assert(marked@[node.0 as int]);
            assert forall|i: int| 0 <= i < n && m0[i] implies marked@[i] by {
                assert(m1[i]);
            }
            assert forall|y: NodeId| y.0 < n && g0.has_child(y) implies self@.has_child(y) || marked@[y.0 as int] by {
                if g0.has_parent(node, y) {
                    let t = choose|t: int| 0 <= t < ps@.len() && ps@[t] == y;
                    assert(marked@[ps@[t].0 as int] || self@.has_child(ps@[t]));
                }
            }
            assert forall|i: int, t: int|
                0 <= i < n && marked@[i] && !m0[i] && 0 <= t < g0.parents(NodeId(i as usize)).len()
                    implies marked@[(#[trigger] g0.parents(NodeId(i as usize))[t]).0 as int] || self@.has_child(
                    g0.parents(NodeId(i as usize))[t],
                ) by {
                if i == node.0 {
                    assert(NodeId(i as usize) == node);
                    assert(ps@[t] == g0.parents(node)[t]);
                }
            }
        }
    }

}

/// A sequence of distinct arena ids is no longer than the arena.
pub proof fn lemma_nodup_bounded(s: Seq<NodeId>, n: nat)
    requires
        s.no_duplicates(),
        forall|k: int| 0 <= k < s.len() ==> (#[trigger] s[k]).0 < n,
    ensures
        s.len() <= n,
{
    let t = s.map_values(|x: NodeId| x.0 as int);
    assert(t.no_duplicates()) by {
        assert forall|i: int, j: int| 0 <= i < j < t.len() implies t[i] != t[j] by {
            assert(s[i] != s[j]);
        }
    }
    t.unique_seq_to_set();
    vstd::set_lib::lemma_int_range(0, n as int);
    assert(t.to_set().subset_of(vstd::set_lib::set_int_range(0, n as int))) by {
        assert forall|v: int| t.to_set().contains(v) implies vstd::set_lib::set_int_range(0, n as int).contains(v) by {
            let k = choose|k: int| 0 <= k < t.len() && t[k] == v;
            assert(s[k].0 < n);
        }
    }
    vstd::set_lib::lemma_len_subset(t.to_set(), vstd::set_lib::set_int_range(0, n as int));
}

/// A walk from a parent of `a` extends to a walk from `a`.
pub proof fn lemma_reaches_step(g: GraphModel, a: NodeId, p: NodeId, b: NodeId)
    requires
        a.0 < g.nodes.len(),
        g.has_parent(a, p),
        g.reaches(p, b),
    ensures
        g.reaches(a, b),
{
    let s = choose|s: Seq<NodeId>| #[trigger] g.is_path(s) && s[0] == p && s.last() == b;
    let t = seq![a] + s;
    assert forall|k: int| 0 <= k < t.len() - 1 implies #[trigger] g.has_parent(t[k], t[k + 1]) by {
        if k > 0 {
            assert(t[k] == s[k - 1] && t[k + 1] == s[k]);
            assert(g.has_parent(s[k - 1], s[(k - 1) + 1]));
        }
    }
    assert forall|k: int| 0 <= k < t.len() implies (#[trigger] t[k]).0 < g.nodes.len() by {
        if k > 0 {
            assert(t[k] == s[k - 1]);
        }
    }
    assert(g.is_path(t));
    assert(t.last() == b);
}

/// Reachability depends on the arena alone.
pub proof fn lemma_reaches_same_nodes(g: GraphModel, h: GraphModel, a: NodeId, b: NodeId)
    requires
        g.nodes == h.nodes,
        g.reaches(a, b),
    ensures
        h.reaches(a, b),
{
    let s = choose|s: Seq<NodeId>| #[trigger] g.is_path(s) && s[0] == a && s.last() == b;
    assert forall|k: int| 0 <= k < s.len() - 1 implies #[trigger] h.has_parent(s[k], s[k + 1]) by {
        assert(g.has_parent(s[k], s[k + 1]));
    }
    assert(h.is_path(s));
}

/// Every node reaches itself.
pub proof fn lemma_reaches_self(g: GraphModel, a: NodeId)
    requires
        a.0 < g.nodes.len(),
    ensures
        g.reaches(a, a),
{
    let s = seq![a];
    assert(g.is_path(s));
}

/// Filtering by predicates that agree on the elements gives the same result.
pub proof fn lemma_filter_ext(s: Seq<NodeId>, p: spec_fn(NodeId) -> bool, q: spec_fn(NodeId) -> bool)
    requires
        forall|x: NodeId| s.contains(x) ==> p(x) == q(x),
    ensures
        s.filter(p) == s.filter(q),
    decreases s.len(),
{
    reveal(Seq::filter);
    if s.len() > 0 {
        assert forall|x: NodeId| s.drop_last().contains(x) implies p(x) == q(x) by {
            let i = choose|i: int| 0 <= i < s.drop_last().len() && s.drop_last()[i] == x;
            assert(s[i] == x);
            assert(s.contains(x));
        }
        lemma_filter_ext(s.drop_last(), p, q);
        assert(s.contains(s.last())) by {
            assert(s[s.len() - 1] == s.last());
        }
    }
}

/// Filtering by a predicate that always holds keeps everything.
pub proof fn lemma_filter_true(s: Seq<NodeId>)
    ensures
        s.filter(|x: NodeId| true) == s,
    decreases s.len(),
{
    reveal(Seq::filter);
    if s.len() > 0 {
        lemma_filter_true(s.drop_last());
        assert(s.drop_last().push(s.last()) =~= s);
    }
}

/// The order after pruning, by the marked mask and by the listing of marked nodes.
pub proof fn lemma_order_marked(g0: GraphModel, order: Seq<NodeId>, marked: Seq<bool>, s: Seq<NodeId>)
    requires
        g0.wf(),
        marked.len() == g0.len(),
        order == g0.order.filter(|x: NodeId| !marked[x.0 as int]),
        forall|x: NodeId| s.contains(x) <==> (x.0 < g0.len() && marked[x.0 as int]),
    ensures
        order == g0.order.filter(not_in_pred(s)),
{
    assert forall|x: NodeId| g0.order.contains(x) implies (|x: NodeId| !marked[x.0 as int])(x) == not_in_pred(s)(x) by {
        let t = choose|t: int| 0 <= t < g0.order.len() && g0.order[t] == x;
        assert(g0.order[t].0 < g0.len());
    }
    lemma_filter_ext(g0.order, |x: NodeId| !marked[x.0 as int], not_in_pred(s));
}

/// Filtering twice is filtering once by both predicates.
pub proof fn lemma_filter_filter(s: Seq<NodeId>, p: spec_fn(NodeId) -> bool, q: spec_fn(NodeId) -> bool, r: spec_fn(NodeId) -> bool)
    requires
        forall|x: NodeId| #[trigger] r(x) == (p(x) && q(x)),
    ensures
        s.filter(p).filter(q) == s.filter(r),
    decreases s.len(),
{
    reveal(Seq::filter);
    if s.len() > 0 {
        lemma_filter_filter(s.drop_last(), p, q, r);
        let d = s.drop_last();
        if p(s.last()) {
            d.filter(p).lemma_filter_push(s.last(), q);
        }
    }
}

/// The children listing of `y` is empty exactly when no active node lists `y`.
pub proof fn lemma_children_has_child(g: GraphModel, y: NodeId)
    ensures
        (g.children(y).len() > 0) == g.has_child(y),
{
    if g.children(y).len() > 0 {
        let c = g.children(y)[0];
        g.order.lemma_filter_pred(g.child_pred(y), 0);
        assert(g.children(y).contains(c));
        lemma_filter_contains_iff(g.order, g.child_pred(y), c);
        assert(g.is_active(c) && g.has_parent(c, y));
    }
    if g.has_child(y) {
        let c = choose|c: NodeId| g.is_active(c) && #[trigger] g.has_parent(c, y);
        lemma_filter_contains_iff(g.order, g.child_pred(y), c);
    }
}

/// Removing active nodes only loses children.
pub proof fn lemma_has_child_shrink(g: GraphModel, h: GraphModel, y: NodeId)
    requires
        g.nodes == h.nodes,
        forall|x: NodeId| h.is_active(x) ==> g.is_active(x),
        h.has_child(y),
    ensures
        g.has_child(y),
{
    let c = choose|c: NodeId| h.is_active(c) && #[trigger] h.has_parent(c, y);
    assert(g.has_parent(c, y));
}

/// Filtering a sequence without duplicates leaves none.
pub proof fn lemma_filter_no_dup(s: Seq<NodeId>, pred: spec_fn(NodeId) -> bool)
    requires
        s.no_duplicates(),
    ensures
        s.filter(pred).no_duplicates(),
    decreases s.len(),
{
    reveal(Seq::filter);
    if s.len() > 0 {
        let d = s.drop_last();
        assert(d.no_duplicates()) by {
            assert forall|i: int, j: int| 0 <= i < j < d.len() implies d[i] != d[j] by {
                assert(s[i] == d[i] && s[j] == d[j]);
            }
        }
        lemma_filter_no_dup(d, pred);
        if pred(s.last()) {
            let f = d.filter(pred);
            assert(!f.contains(s.last())) by {
                if f.contains(s.last()) {
                    d.lemma_filter_contains_rev(pred, s.last());
                    let i = choose|i: int| 0 <= i < d.len() && d[i] == s.last();
                    assert(s[i] == s[s.len() - 1]);
                }
            }
            assert forall|i: int, j: int| 0 <= i < j < f.push(s.last()).len() implies f.push(s.last())[i]
                != f.push(s.last())[j] by {
                if j == f.len() {
                    assert(f.contains(f[i]));
                }
            }
        }
    }
}

/// Connecting a parent to a child and then disconnecting it again, without
/// pruning, gives back the graph: the edge was not there and both nodes are
/// active, so the connection adds exactly that edge and the disconnection
/// removes exactly it.
pub proof fn law_connect_then_disconnect(g: GraphModel, p: NodeId, c: NodeId)
    requires
        g.wf(),
        p.0 < g.len(),
        c.0 < g.len(),
        g.is_active(p),
        g.is_active(c),
        !g.has_parent(c, p),
    ensures
        ({
            let g1 = g.with_parents(c, g.parents(c).push(p));
            &&& g1.has_parent(c, p)
            &&& g1.is_active(p)
            &&& g1.is_active(c)
            &&& g1.with_parents(c, without(g1.parents(c), p)) == g
        }),
{
    let g1 = g.with_parents(c, g.parents(c).push(p));
    assert(g1.parents(c) == g.parents(c).push(p));
    assert(g1.parents(c)[g.parents(c).len() as int] == p);
    let w = without(g1.parents(c), p);
    assert(w == g.parents(c)) by {
        g.parents(c).lemma_filter_push(p, ne_pred(p));
        lemma_filter_true_when(g.parents(c), ne_pred(p));
    }
    assert(g1.with_parents(c, w).nodes =~= g.nodes);
}

/// Filtering by a predicate that holds of every element keeps everything.
proof fn lemma_filter_true_when(s: Seq<NodeId>, pred: spec_fn(NodeId) -> bool)
    requires
        forall|k: int| 0 <= k < s.len() ==> pred(#[trigger] s[k]),
    ensures
        s.filter(pred) == s,
    decreases s.len(),
{
    reveal(Seq::filter);
    if s.len() > 0 {
        lemma_filter_true_when(s.drop_last(), pred);
        assert(s.drop_last().push(s.last()) =~= s);
        assert(pred(s[s.len() - 1]));
    }
}

/// A deleted node leaves the active set.
pub proof fn law_deleted_node_inactive(g: GraphModel, x: NodeId, reconnect: ReconnectType)
    requires
        g.wf(),
    ensures
        !g.after_delete_node(x, reconnect).is_active(x),
{
    if g.after_delete_node(x, reconnect).is_active(x) {
        lemma_without_contains(g.order, x, x);
    }
}

/// After deleting the subtree of `x`, when no cycle lies above it, `x` is no
/// longer active.
pub proof fn law_deleted_subtree_inactive(g: GraphModel, x: NodeId, h: GraphModel)
    requires
        !g.cycle_above(x),
        g.delete_subtree_result(x, h),
    ensures
        !h.is_active(x),
{
    let v = choose|v: Seq<NodeId>|
        g.is_hierarchy(x, v) && g.parent_closed(v) && h == #[trigger] g.after_remove_set(v);
    assert(v[0] == x);
    assert(v.contains(x));
    if h.is_active(x) {
        lemma_filter_contains_iff(g.order, not_in_pred(v), x);
    }
}

} // verus!
