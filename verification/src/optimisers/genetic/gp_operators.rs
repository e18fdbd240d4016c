use vstd::prelude::*;
use crate::dag::graph_utils::{active_closed, collect_ancestors};
use crate::dag::linked_graph::{GraphModel, LinkedGraph, lemma_nodup_bounded, vec_contains};
use crate::dag::graph_node::{chars_lt, descriptive_id, node_desc_id, str_lt};
use crate::dag::node::NodeId;

verus! {

/// The number of parents to select so that `num_of_final_inds` offspring can be
/// bred in pairs: the next even number from `num_of_final_inds` on.
pub fn num_of_parents_in_crossover(num_of_final_inds: usize) -> (r: usize)
    requires
        num_of_final_inds < usize::MAX,
    ensures
        r % 2 == 0,
        num_of_final_inds <= r <= num_of_final_inds + 1,
{
    if num_of_final_inds % 2 == 0 {
        num_of_final_inds
    } else {
        num_of_final_inds + 1
    }
}

/// The value of the parameter `is_primary` among `ps` when it is a JSON
/// boolean (parameters are held as `{:?}` renderings of key and value).
pub open spec fn primary_flag(ps: Seq<(String, String)>) -> Option<bool>
    decreases ps.len(),
{
    if ps.len() == 0 {
        None
    } else if ps[0].0@ == "\"is_primary\""@ {
        if ps[0].1@ == "Bool(true)"@ {
            Some(true)
        } else if ps[0].1@ == "Bool(false)"@ {
            Some(false)
        } else {
            None
        }
    } else {
        primary_flag(ps.drop_first())
    }
}

/// Whether `x` counts as a primary node of `g`: the boolean parameter
/// `is_primary` when the node has one, else whether it is the first root or
/// has parents.
pub open spec fn is_primary_node(g: GraphModel, x: NodeId) -> bool {
    match primary_flag(g.nodes[x.0 as int].params) {
        Some(b) => b,
        None => (g.roots().len() > 0 && g.roots()[0] == x) || g.parents(x).len() > 0,
    }
}

/// Whether `x` is primary: see [`is_primary_node`].
pub fn node_is_primary(g: &LinkedGraph, x: NodeId) -> (r: bool)
    requires
        g@.wf(),
        x.0 < g@.len(),
    ensures
        r == is_primary_node(g@, x),
{
    let key = String::from_str("\"is_primary\"");
    let yes = String::from_str("Bool(true)");
    let no = String::from_str("Bool(false)");
    let ps = &g.content(x).params;
    let ghost all = ps@;
    let mut k: usize = 0;
    let mut stop = false;
    proof {
        assert(all.skip(0) =~= all);
    }
    while k < ps.len() && !stop
        invariant
            ps@ == all,
            all == g@.nodes[x.0 as int].params,
            k <= all.len(),
            key@ == "\"is_primary\""@,
            stop ==> k < all.len() && all[k as int].0@ == key@,
            primary_flag(all) == primary_flag(all.skip(k as int)),
        decreases all.len() - k, if stop { 0int } else { 1int },
    {
        if ps[k].0 == key {
            stop = true;
        } else {
            proof {
                assert(all.skip(k as int)[0] == all[k as int]);
                assert(all.skip(k as int).drop_first() =~= all.skip(k + 1));
            }
            k = k + 1;
        }
    }
    if stop {
        proof {
            assert(all.skip(k as int)[0] == all[k as int]);
        }
        if ps[k].1 == yes {
            return true;
        } else if ps[k].1 == no {
            return false;
        }
    } else {
        proof {
            assert(all.skip(k as int) =~= Seq::<(String, String)>::empty());
        }
    }
    let first = g.root_node();
    let is_root = match first {
        Some(f) => f == x,
        None => false,
    };
    is_root || g.parents_of(x).len() > 0
}

/// The nodes `x` reaches along parent links, itself included.
pub open spec fn lineage(g: GraphModel, x: NodeId) -> Set<NodeId> {
    Set::new(|z: NodeId| g.reaches(x, z))
}

/// The size of the lineage of `x` when `x` is active, 0 otherwise.
pub open spec fn lineage_size(g: GraphModel, x: NodeId) -> nat {
    if g.is_active(x) {
        lineage(g, x).len()
    } else {
        0
    }
}

/// A listing closed under parents that holds the start of a walk holds its
/// first `k + 1` nodes.
proof fn lemma_closed_path(g: GraphModel, v: Seq<NodeId>, s: Seq<NodeId>, k: int)
    requires
        g.is_path(s),
        v.contains(s[0]),
        g.parent_closed(v),
        0 <= k < s.len(),
    ensures
        v.contains(s[k]),
    decreases k,
{
    if k > 0 {
        lemma_closed_path(g, v, s, k - 1);
        let a = s[k - 1];
        assert(g.has_parent(s[k - 1], s[(k - 1) + 1]));
        let i = choose|i: int| 0 <= i < v.len() && v[i] == a;
        let j = choose|j: int| 0 <= j < g.parents(a).len() && g.parents(a)[j] == s[k];
        assert(v.contains(g.parents(v[i])[j]));
    }
}

/// The ancestor listing of `x` holds exactly its lineage.
proof fn lemma_listing_size(g: GraphModel, x: NodeId, v: Seq<NodeId>)
    requires
        v.len() >= 1,
        v[0] == x,
        v.no_duplicates(),
        g.parent_closed(v),
        forall|k: int| 0 <= k < v.len() ==> g.reaches(x, #[trigger] v[k]),
    ensures
        v.len() == lineage(g, x).len(),
        lineage(g, x).finite(),
{
    assert(v.to_set() =~= lineage(g, x)) by {
        assert forall|z: NodeId| lineage(g, x).contains(z) implies v.to_set().contains(z) by {
            let s = choose|s: Seq<NodeId>| #[trigger] g.is_path(s) && s[0] == x && s.last() == z;
            assert(v[0] == x);
            lemma_closed_path(g, v, s, s.len() - 1);
        }
        assert forall|z: NodeId| v.to_set().contains(z) implies lineage(g, x).contains(z) by {
            let k = choose|k: int| 0 <= k < v.len() && v[k] == z;
            assert(g.reaches(x, v[k]));
        }
    }
    v.unique_seq_to_set();
}

/// The lineage size of every arena node of `g`.
fn lineage_sizes(g: &LinkedGraph) -> (r: Vec<usize>)
    requires
        g@.wf(),
    ensures
        r@.len() == g@.len(),
        forall|i: int| 0 <= i < r@.len() ==> r@[i] == lineage_size(g@, NodeId(i as usize)),
{
    let n = g.arena_len();
    let mut r: Vec<usize> = Vec::new();
    let mut i: usize = 0;
    while i < n
        invariant
            g@.wf(),
            n == g@.len(),
            i <= n,
            r@.len() == i,
            forall|k: int| 0 <= k < i ==> r@[k] == lineage_size(g@, NodeId(k as usize)),
        decreases n - i,
    {
        if g.contains(NodeId(i)) {
            let v = collect_ancestors(g, NodeId(i));
            proof {
                lemma_listing_size(g@, NodeId(i), v@);
            }
            r.push(v.len());
        } else {
            r.push(0);
        }
        i = i + 1;
    }
    r
}

/// How many of the pairs `(a, ps2[t])`, `t < j`, are listed in `m`.
pub open spec fn matched_in_row(a: NodeId, ps2: Seq<NodeId>, j: nat, m: Seq<(NodeId, NodeId)>) -> nat
    decreases j,
{
    if j == 0 || j > ps2.len() {
        0
    } else {
        matched_in_row(a, ps2, (j - 1) as nat, m) + if m.contains((a, ps2[j - 1])) {
            1nat
        } else {
            0nat
        }
    }
}

/// How many of the pairs `(ps1[s], ps2[t])`, `s < i`, are listed in `m`.
pub open spec fn matched_count(ps1: Seq<NodeId>, ps2: Seq<NodeId>, i: nat, m: Seq<(NodeId, NodeId)>) -> nat
    decreases i,
{
    if i == 0 || i > ps1.len() {
        0
    } else {
        matched_count(ps1, ps2, (i - 1) as nat, m) + matched_in_row(ps1[i - 1], ps2, ps2.len(), m)
    }
}

/// The subtrees of `x` in `g1` and `y` in `g2` count as the same under the
/// matched pairs `m`: as many parents, a non-empty `m` when there are
/// parents, lineages of the same size, and at least as many matched parent
/// pairs as `x` has parents.
pub open spec fn subtrees_same(g1: GraphModel, g2: GraphModel, m: Seq<(NodeId, NodeId)>, x: NodeId, y: NodeId) -> bool {
    let p1 = g1.parents(x);
    let p2 = g2.parents(y);
    if p1.len() != p2.len() || (m.len() == 0 && p1.len() > 0) || lineage_size(g1, x) != lineage_size(g2, y) {
        false
    } else {
        matched_count(p1, p2, p1.len(), m) >= p1.len()
    }
}

/// Counting further never lowers a row's count.
proof fn lemma_row_mono(a: NodeId, ps2: Seq<NodeId>, j: nat, k: nat, m: Seq<(NodeId, NodeId)>)
    requires
        j <= k <= ps2.len(),
    ensures
        matched_in_row(a, ps2, j, m) <= matched_in_row(a, ps2, k, m),
    decreases k - j,
{
    if j < k {
        lemma_row_mono(a, ps2, j, (k - 1) as nat, m);
    }
}

/// Counting further rows never lowers the count.
proof fn lemma_count_mono(ps1: Seq<NodeId>, ps2: Seq<NodeId>, i: nat, k: nat, m: Seq<(NodeId, NodeId)>)
    requires
        i <= k <= ps1.len(),
    ensures
        matched_count(ps1, ps2, i, m) <= matched_count(ps1, ps2, k, m),
    decreases k - i,
{
    if i < k {
        lemma_count_mono(ps1, ps2, i, (k - 1) as nat, m);
    }
}

/// Whether `m` lists the pair `p`.
fn pairs_contain(m: &Vec<(NodeId, NodeId)>, p: (NodeId, NodeId)) -> (r: bool)
    ensures
        r == m@.contains(p),
{
    let mut i: usize = 0;
    while i < m.len()
        invariant
            i <= m@.len(),
            forall|k: int| 0 <= k < i ==> m@[k] != p,
        decreases m@.len() - i,
    {
        if m[i].0 == p.0 && m[i].1 == p.1 {
            proof {
                assert(m@[i as int] == p);
            }
            return true;
        }
        i = i + 1;
    }
    false
}

/// [`subtrees_same`] computed with the lineage sizes at hand.
fn subtrees_same_with(
    g1: &LinkedGraph,
    g2: &LinkedGraph,
    sizes1: &Vec<usize>,
    sizes2: &Vec<usize>,
    m: &Vec<(NodeId, NodeId)>,
    x: NodeId,
    y: NodeId,
) -> (r: bool)
    requires
        g1@.wf(),
        g2@.wf(),
        x.0 < g1@.len(),
        y.0 < g2@.len(),
        sizes1@.len() == g1@.len(),
        sizes2@.len() == g2@.len(),
        forall|i: int| 0 <= i < sizes1@.len() ==> sizes1@[i] == lineage_size(g1@, NodeId(i as usize)),
        forall|i: int| 0 <= i < sizes2@.len() ==> sizes2@[i] == lineage_size(g2@, NodeId(i as usize)),
    ensures
        r == subtrees_same(g1@, g2@, m@, x, y),
{
    let p1 = g1.parents_of(x);
    let p2 = g2.parents_of(y);
    proof {
        assert(NodeId(x.0) == x && NodeId(y.0) == y);
    }
    if p1.len() != p2.len() || (m.len() == 0 && p1.len() > 0) || sizes1[x.0] != sizes2[y.0] {
        return false;
    }
    if p1.len() == 0 {
        return true;
    }
    let l1 = p1.len();
    let mut matched: usize = 0;
    let mut i: usize = 0;
    while i < p1.len()
        invariant
            p1@ == g1@.parents(x),
            p2@ == g2@.parents(y),
            i <= p1@.len(),
            matched == matched_count(p1@, p2@, i as nat, m@),
            matched < p1@.len(),
            l1 == p1@.len(),
            lineage_size(g1@, x) == lineage_size(g2@, y),
            p1@.len() == p2@.len(),
            m@.len() > 0,
        decreases p1@.len() - i,
    {
        let mut j: usize = 0;
        while j < p2.len()
            invariant
                p1@ == g1@.parents(x),
                p2@ == g2@.parents(y),
                i < p1@.len(),
                j <= p2@.len(),
                matched == matched_count(p1@, p2@, i as nat, m@) + matched_in_row(p1@[i as int], p2@, j as nat, m@),
                matched < p1@.len(),
                l1 == p1@.len(),
                lineage_size(g1@, x) == lineage_size(g2@, y),
                p1@.len() == p2@.len(),
                m@.len() > 0,
            decreases p2@.len() - j,
        {
            let hit = pairs_contain(m, (p1[i], p2[j]));
            proof {
                assert(matched_in_row(p1@[i as int], p2@, (j + 1) as nat, m@) == matched_in_row(
                    p1@[i as int],
                    p2@,
                    j as nat,
                    m@,
                ) + if m@.contains((p1@[i as int], p2@[j as int])) {
                    1nat
                } else {
                    0nat
                });
            }
            if hit {
                assert(matched + 1 <= p1@.len());
                matched = matched + 1;
                if matched >= p1.len() {
                    proof {
                        assert(matched_count(p1@, p2@, (i + 1) as nat, m@) == matched_count(p1@, p2@, i as nat, m@)
                            + matched_in_row(p1@[i as int], p2@, p2@.len(), m@));
                        lemma_row_mono(p1@[i as int], p2@, (j + 1) as nat, p2@.len(), m@);
                        lemma_count_mono(p1@, p2@, (i + 1) as nat, p1@.len(), m@);
                        assert(matched_count(p1@, p2@, p1@.len(), m@) >= p1@.len());
                        assert(lineage_size(g1@, x) == lineage_size(g2@, y));
                    }
                    return true;
                }
            }
            j = j + 1;
        }
        i = i + 1;
    }
    false
}

/// Whether the subtrees of `x` in `g1` and `y` in `g2` count as the same
/// under the matched pairs `m`: see [`subtrees_same`].
pub fn are_subtrees_the_same(g1: &LinkedGraph, g2: &LinkedGraph, m: &Vec<(NodeId, NodeId)>, x: NodeId, y: NodeId) -> (r: bool)
    requires
        g1@.wf(),
        g2@.wf(),
        x.0 < g1@.len(),
        y.0 < g2@.len(),
    ensures
        r == subtrees_same(g1@, g2@, m@, x, y),
{
    let sizes1 = lineage_sizes(g1);
    let sizes2 = lineage_sizes(g2);
    subtrees_same_with(g1, g2, &sizes1, &sizes2, m, x, y)
}

/// The outcome of a structural search: the equivalent pairs found, and the
/// nodes of each graph seen so far.
pub type SearchState = (Seq<(NodeId, NodeId)>, Seq<NodeId>, Seq<NodeId>);

/// The structural search from `x` in `g1` and `y` in `g2`, with the nodes
/// `s1` and `s2` already seen, walking at most `fuel` levels. Nothing is found
/// when either node was seen. Otherwise both are marked seen, every pair of a
/// parent of `x` with a parent of `y` is searched in turn, and `(x, y)` is
/// added after what they found when both have as many parents, their subtrees
/// count as the same under what was found, and both or neither are primary.
pub open spec fn struct_equiv(
    g1: GraphModel,
    g2: GraphModel,
    x: NodeId,
    y: NodeId,
    s1: Seq<NodeId>,
    s2: Seq<NodeId>,
    fuel: nat,
) -> SearchState
    decreases fuel, 2nat, 0nat,
{
    if fuel == 0 || s1.contains(x) || s2.contains(y) {
        (Seq::empty(), s1, s2)
    } else {
        let ps1 = g1.parents(x);
        let ps2 = g2.parents(y);
        let r = equiv_rows(g1, g2, ps1, ps2, ps1.len(), s1.push(x), s2.push(y), fuel);
        let keep = ps1.len() == ps2.len() && subtrees_same(g1, g2, r.0, x, y) && is_primary_node(g1, x)
            == is_primary_node(g2, y);
        (if keep {
            r.0.push((x, y))
        } else {
            r.0
        }, r.1, r.2)
    }
}

/// The searches from the pairs `(ps1[s], ps2[t])` for `s < i`, in order.
pub open spec fn equiv_rows(
    g1: GraphModel,
    g2: GraphModel,
    ps1: Seq<NodeId>,
    ps2: Seq<NodeId>,
    i: nat,
    s1: Seq<NodeId>,
    s2: Seq<NodeId>,
    fuel: nat,
) -> SearchState
    decreases fuel, 1nat, i,
{
    if i == 0 || i > ps1.len() {
        (Seq::empty(), s1, s2)
    } else {
        let a = equiv_rows(g1, g2, ps1, ps2, (i - 1) as nat, s1, s2, fuel);
        let b = equiv_row(g1, g2, ps1[i - 1], ps2, ps2.len(), a.1, a.2, fuel);
        (a.0 + b.0, b.1, b.2)
    }
}

/// The searches from the pairs `(x, ps2[t])` for `t < j`, in order, each one
/// level shorter.
pub open spec fn equiv_row(
    g1: GraphModel,
    g2: GraphModel,
    x: NodeId,
    ps2: Seq<NodeId>,
    j: nat,
    s1: Seq<NodeId>,
    s2: Seq<NodeId>,
    fuel: nat,
) -> SearchState
    decreases fuel, 0nat, j,
{
    if j == 0 || j > ps2.len() || fuel == 0 {
        (Seq::empty(), s1, s2)
    } else {
        let c = equiv_row(g1, g2, x, ps2, (j - 1) as nat, s1, s2, fuel);
        let d = struct_equiv(g1, g2, x, ps2[j - 1], c.1, c.2, (fuel - 1) as nat);
        (c.0 + d.0, d.1, d.2)
    }
}

/// The seen nodes are arena nodes, each listed once.
pub open spec fn seen_ok(g: GraphModel, s: Seq<NodeId>) -> bool {
    &&& s.no_duplicates()
    &&& forall|k: int| 0 <= k < s.len() ==> (#[trigger] s[k]).0 < g.len()
}

/// The pairs hold a node of `g1` first and a node of `g2` second.
pub open spec fn pairs_in(g1: GraphModel, g2: GraphModel, m: Seq<(NodeId, NodeId)>) -> bool {
    forall|k: int| 0 <= k < m.len() ==> (#[trigger] m[k]).0.0 < g1.len() && m[k].1.0 < g2.len()
}

/// The structural search of [`struct_equiv`], with the lineage sizes at hand.
fn search_pairs(
    g1: &LinkedGraph,
    g2: &LinkedGraph,
    sizes1: &Vec<usize>,
    sizes2: &Vec<usize>,
    x: NodeId,
    y: NodeId,
    seen1: &mut Vec<NodeId>,
    seen2: &mut Vec<NodeId>,
    Ghost(fuel): Ghost<nat>,
) -> (r: Vec<(NodeId, NodeId)>)
    requires
        g1@.wf(),
        g2@.wf(),
        x.0 < g1@.len(),
        y.0 < g2@.len(),
        sizes1@.len() == g1@.len(),
        sizes2@.len() == g2@.len(),
        forall|i: int| 0 <= i < sizes1@.len() ==> sizes1@[i] == lineage_size(g1@, NodeId(i as usize)),
        forall|i: int| 0 <= i < sizes2@.len() ==> sizes2@[i] == lineage_size(g2@, NodeId(i as usize)),
        seen_ok(g1@, old(seen1)@),
        seen_ok(g2@, old(seen2)@),
        old(seen1)@.len() + fuel > g1@.len(),
    ensures
        (r@, final(seen1)@, final(seen2)@) == struct_equiv(g1@, g2@, x, y, old(seen1)@, old(seen2)@, fuel),
        seen_ok(g1@, final(seen1)@),
        seen_ok(g2@, final(seen2)@),
        final(seen1)@.len() >= old(seen1)@.len(),
        pairs_in(g1@, g2@, r@),
    decreases fuel,
{
    let ghost s1 = seen1@;
    let ghost s2 = seen2@;
    if vec_contains(seen1, x) || vec_contains(seen2, y) {
        return Vec::new();
    }
    proof {
        lemma_nodup_bounded(s1.push(x), g1@.len());
    }
    seen1.push(x);
    seen2.push(y);
    let ps1 = g1.parents_of(x);
    let ps2 = g2.parents_of(y);
    let ghost t1 = seen1@;
    let ghost t2 = seen2@;
    let mut found: Vec<(NodeId, NodeId)> = Vec::new();
    let mut i: usize = 0;
    while i < ps1.len()
        invariant
            g1@.wf(),
            g2@.wf(),
            sizes1@.len() == g1@.len(),
            sizes2@.len() == g2@.len(),
            forall|i: int| 0 <= i < sizes1@.len() ==> sizes1@[i] == lineage_size(g1@, NodeId(i as usize)),
            forall|i: int| 0 <= i < sizes2@.len() ==> sizes2@[i] == lineage_size(g2@, NodeId(i as usize)),
            x.0 < g1@.len(),
            y.0 < g2@.len(),
            ps1@ == g1@.parents(x),
            ps2@ == g2@.parents(y),
            i <= ps1@.len(),
            fuel > 0,
            t1.len() + fuel > g1@.len() + 1,
            (found@, seen1@, seen2@) == equiv_rows(g1@, g2@, ps1@, ps2@, i as nat, t1, t2, fuel),
            seen_ok(g1@, seen1@),
            seen_ok(g2@, seen2@),
            seen1@.len() >= t1.len(),
            pairs_in(g1@, g2@, found@),
        decreases ps1@.len() - i,
    {
        let ghost before = (found@, seen1@, seen2@);
        let a = ps1[i];
        proof {
            assert(g1@.nodes[x.0 as int].parents[i as int].0 < g1@.len());
        }
        let mut j: usize = 0;
        while j < ps2.len()
            invariant
                g1@.wf(),
                g2@.wf(),
                sizes1@.len() == g1@.len(),
                sizes2@.len() == g2@.len(),
                forall|i: int| 0 <= i < sizes1@.len() ==> sizes1@[i] == lineage_size(g1@, NodeId(i as usize)),
                forall|i: int| 0 <= i < sizes2@.len() ==> sizes2@[i] == lineage_size(g2@, NodeId(i as usize)),
                y.0 < g2@.len(),
                a.0 < g1@.len(),
                ps2@ == g2@.parents(y),
                j <= ps2@.len(),
                fuel > 0,
                t1.len() + fuel > g1@.len() + 1,
                ({
                    let row = equiv_row(g1@, g2@, a, ps2@, j as nat, before.1, before.2, fuel);
                    found@ == before.0 + row.0 && seen1@ == row.1 && seen2@ == row.2
                }),
                seen_ok(g1@, seen1@),
                seen_ok(g2@, seen2@),
                seen1@.len() >= t1.len(),
                pairs_in(g1@, g2@, found@),
            decreases ps2@.len() - j,
        {
            let b = ps2[j];
            proof {
                assert(g2@.nodes[y.0 as int].parents[j as int].0 < g2@.len());
            }
            let ghost mid = (found@, seen1@, seen2@);
            let sub = search_pairs(g1, g2, sizes1, sizes2, a, b, seen1, seen2, Ghost((fuel - 1) as nat));
            let ghost f0 = found@;
            let mut k: usize = 0;
            while k < sub.len()
                invariant
                    found@ == f0 + sub@.take(k as int),
                    k <= sub@.len(),
                    pairs_in(g1@, g2@, f0),
                    pairs_in(g1@, g2@, sub@),
                decreases sub@.len() - k,
            {
                found.push(sub[k]);
                proof {
                    assert(sub@.take(k + 1) =~= sub@.take(k as int).push(sub@[k as int]));
                }
                k = k + 1;
            }
            proof {
                assert(sub@.take(sub@.len() as int) =~= sub@);
                assert(pairs_in(g1@, g2@, found@)) by {
                    assert forall|q: int| 0 <= q < found@.len() implies (#[trigger] found@[q]).0.0 < g1@.len() && found@[q].1.0 < g2@.len() by {
                        if q < f0.len() {
                            assert(found@[q] == f0[q]);
                        } else {
                            assert(found@[q] == sub@[q - f0.len()]);
                        }
                    }
                }
                let row = equiv_row(g1@, g2@, a, ps2@, j as nat, before.1, before.2, fuel);
                assert(before.0 + row.0 + sub@ =~= before.0 + (row.0 + sub@));
            }
            j = j + 1;
        }
        proof {
            let row = equiv_row(g1@, g2@, a, ps2@, ps2@.len(), before.1, before.2, fuel);
            assert(before.0 + row.0 =~= before.0 + row.0);
        }
        i = i + 1;
    }
    let keep = ps1.len() == ps2.len() && subtrees_same_with(g1, g2, sizes1, sizes2, &found, x, y)
        && node_is_primary(g1, x) == node_is_primary(g2, y);
    if keep {
        found.push((x, y));
    }
    proof {
        assert(pairs_in(g1@, g2@, found@)) by {
            assert forall|q: int| 0 <= q < found@.len() implies (#[trigger] found@[q]).0.0 < g1@.len() && found@[q].1.0 < g2@.len() by {
            }
        }
    }
    found
}

/// The structural search from `x` in `g1` and `y` in `g2` with the nodes
/// `seen1` and `seen2` already seen: the equivalent pairs found, from the
/// deepest up. The nodes met are added to the seen lists. The two graphs are
/// taken as holding distinct nodes, as two separate graphs do.
pub fn structural_equivalent_nodes(
    g1: &LinkedGraph,
    g2: &LinkedGraph,
    x: NodeId,
    y: NodeId,
    seen1: &mut Vec<NodeId>,
    seen2: &mut Vec<NodeId>,
) -> (r: Vec<(NodeId, NodeId)>)
    requires
        g1@.wf(),
        g2@.wf(),
        x.0 < g1@.len(),
        y.0 < g2@.len(),
        seen_ok(g1@, old(seen1)@),
        seen_ok(g2@, old(seen2)@),
        g1@.len() < usize::MAX,
    ensures
        (r@, final(seen1)@, final(seen2)@) == struct_equiv(
            g1@,
            g2@,
            x,
            y,
            old(seen1)@,
            old(seen2)@,
            (g1@.len() + 1) as nat,
        ),
        pairs_in(g1@, g2@, r@),
{
    let sizes1 = lineage_sizes(g1);
    let sizes2 = lineage_sizes(g2);
    search_pairs(g1, g2, &sizes1, &sizes2, x, y, seen1, seen2, Ghost((g1@.len() + 1) as nat))
}

/// The pairs found when searching from `x` and each of `ys[t]`, `t < j`, in
/// turn, each from nothing seen, after the pairs `acc`; a pair `(x, ys[t])`
/// already found is not searched again.
pub open spec fn pairs_row(g1: GraphModel, g2: GraphModel, x: NodeId, ys: Seq<NodeId>, j: nat, acc: Seq<(NodeId, NodeId)>) -> Seq<(NodeId, NodeId)>
    decreases j,
{
    if j == 0 || j > ys.len() {
        acc
    } else {
        let a = pairs_row(g1, g2, x, ys, (j - 1) as nat, acc);
        if a.contains((x, ys[j - 1])) {
            a
        } else {
            a + struct_equiv(g1, g2, x, ys[j - 1], Seq::empty(), Seq::empty(), (g1.len() + 1) as nat).0
        }
    }
}

/// The pairs found from the first `i` active nodes of `g1`, each with every
/// active node of `g2`.
pub open spec fn pairs_rows(g1: GraphModel, g2: GraphModel, i: nat) -> Seq<(NodeId, NodeId)>
    decreases i,
{
    if i == 0 || i > g1.order.len() {
        Seq::empty()
    } else {
        pairs_row(g1, g2, g1.order[i - 1], g2.order, g2.order.len(), pairs_rows(g1, g2, (i - 1) as nat))
    }
}

/// The sort key of a pair: the descriptive ids of its two nodes.
pub open spec fn pair_key(g1: GraphModel, g2: GraphModel, p: (NodeId, NodeId)) -> (Seq<char>, Seq<char>) {
    (node_desc_id(g1, p.0), node_desc_id(g2, p.1))
}

/// `a` comes before `b`: by the first id, then by the second.
pub open spec fn key_lt(a: (Seq<char>, Seq<char>), b: (Seq<char>, Seq<char>)) -> bool {
    chars_lt(a.0, b.0) || (a.0 == b.0 && chars_lt(a.1, b.1))
}

/// `p` put into the sorted `t` after every pair whose key does not come after
/// its key.
pub open spec fn insert_by_key(g1: GraphModel, g2: GraphModel, t: Seq<(NodeId, NodeId)>, p: (NodeId, NodeId)) -> Seq<(NodeId, NodeId)>
    decreases t.len(),
{
    if t.len() == 0 {
        seq![p]
    } else if key_lt(pair_key(g1, g2, p), pair_key(g1, g2, t[0])) {
        seq![p] + t
    } else {
        seq![t[0]] + insert_by_key(g1, g2, t.drop_first(), p)
    }
}

/// The pairs of `s` stably sorted by key.
pub open spec fn sort_by_key(g1: GraphModel, g2: GraphModel, s: Seq<(NodeId, NodeId)>) -> Seq<(NodeId, NodeId)>
    decreases s.len(),
{
    if s.len() == 0 {
        Seq::empty()
    } else {
        insert_by_key(g1, g2, sort_by_key(g1, g2, s.drop_last()), s.last())
    }
}

/// The pairs of `s`, each at its first place only.
pub open spec fn dedup_pairs(s: Seq<(NodeId, NodeId)>) -> Seq<(NodeId, NodeId)>
    decreases s.len(),
{
    if s.len() == 0 {
        Seq::empty()
    } else {
        let d = dedup_pairs(s.drop_last());
        if d.contains(s.last()) {
            d
        } else {
            d.push(s.last())
        }
    }
}

/// The equivalent pairs of two graphs: all pairs found from every pair of
/// active nodes, sorted by key, each kept once, and, unless
/// `with_primary_nodes`, only those whose first node has parents.
pub open spec fn equivalent_pairs(g1: GraphModel, g2: GraphModel, with_primary_nodes: bool) -> Seq<(NodeId, NodeId)> {
    let d = dedup_pairs(sort_by_key(g1, g2, pairs_rows(g1, g2, g1.order.len())));
    if with_primary_nodes {
        d
    } else {
        d.filter(|p: (NodeId, NodeId)| g1.parents(p.0).len() > 0)
    }
}

/// The descriptive ids of all arena nodes of `g`.
fn desc_ids(g: &LinkedGraph) -> (r: Vec<String>)
    requires
        g@.wf(),
        g@.len() < usize::MAX,
    ensures
        r@.len() == g@.len(),
        forall|i: int| 0 <= i < r@.len() ==> (#[trigger] r@[i])@ == node_desc_id(g@, NodeId(i as usize)),
{
    let n = g.arena_len();
    let mut r: Vec<String> = Vec::new();
    let mut i: usize = 0;
    while i < n
        invariant
            g@.wf(),
            g@.len() < usize::MAX,
            n == g@.len(),
            i <= n,
            r@.len() == i,
            forall|k: int| 0 <= k < i ==> (#[trigger] r@[k])@ == node_desc_id(g@, NodeId(k as usize)),
        decreases n - i,
    {
        r.push(descriptive_id(g, NodeId(i)));
        i = i + 1;
    }
    r
}

/// Whether the key of `a` comes before the key of `b`.
fn key_before(ids1: &Vec<String>, ids2: &Vec<String>, a: (NodeId, NodeId), b: (NodeId, NodeId)) -> (r: bool)
    requires
        a.0.0 < ids1@.len(),
        b.0.0 < ids1@.len(),
        a.1.0 < ids2@.len(),
        b.1.0 < ids2@.len(),
    ensures
        r == key_lt((ids1@[a.0.0 as int]@, ids2@[a.1.0 as int]@), (ids1@[b.0.0 as int]@, ids2@[b.1.0 as int]@)),
{
    str_lt(&ids1[a.0.0], &ids1[b.0.0]) || (ids1[a.0.0] == ids1[b.0.0] && str_lt(&ids2[a.1.0], &ids2[b.1.0]))
}

/// The pairs of `s` stably sorted by key.
fn sort_pairs_by_key(g1: &LinkedGraph, g2: &LinkedGraph, ids1: &Vec<String>, ids2: &Vec<String>, s: &Vec<(NodeId, NodeId)>) -> (r: Vec<(NodeId, NodeId)>)
    requires
        ids1@.len() == g1@.len(),
        ids2@.len() == g2@.len(),
        forall|i: int| 0 <= i < ids1@.len() ==> (#[trigger] ids1@[i])@ == node_desc_id(g1@, NodeId(i as usize)),
        forall|i: int| 0 <= i < ids2@.len() ==> (#[trigger] ids2@[i])@ == node_desc_id(g2@, NodeId(i as usize)),
        pairs_in(g1@, g2@, s@),
    ensures
        r@ == sort_by_key(g1@, g2@, s@),
        pairs_in(g1@, g2@, r@),
{
    let mut t: Vec<(NodeId, NodeId)> = Vec::new();
    let mut n: usize = 0;
    while n < s.len()
        invariant
            ids1@.len() == g1@.len(),
            ids2@.len() == g2@.len(),
            forall|i: int| 0 <= i < ids1@.len() ==> (#[trigger] ids1@[i])@ == node_desc_id(g1@, NodeId(i as usize)),
            forall|i: int| 0 <= i < ids2@.len() ==> (#[trigger] ids2@[i])@ == node_desc_id(g2@, NodeId(i as usize)),
            pairs_in(g1@, g2@, s@),
            n <= s@.len(),
            t@ == sort_by_key(g1@, g2@, s@.take(n as int)),
            pairs_in(g1@, g2@, t@),
        decreases s@.len() - n,
    {
        let p = s[n];
        proof {
            assert(s@.take(n + 1).drop_last() =~= s@.take(n as int));
            assert(s@.take(n + 1).last() == p);
            assert(NodeId(p.0.0) == p.0 && NodeId(p.1.0) == p.1);
        }
        let ghost t0 = t@;
        let mut i: usize = 0;
        let mut stop = false;
        proof {
            assert(t0.skip(0) =~= t0);
            assert(t0.take(0) + t0 =~= t0);
        }
        while i < t.len() && !stop
            invariant
                ids1@.len() == g1@.len(),
                ids2@.len() == g2@.len(),
                forall|i: int| 0 <= i < ids1@.len() ==> (#[trigger] ids1@[i])@ == node_desc_id(g1@, NodeId(i as usize)),
                forall|i: int| 0 <= i < ids2@.len() ==> (#[trigger] ids2@[i])@ == node_desc_id(g2@, NodeId(i as usize)),
                NodeId(p.0.0) == p.0 && NodeId(p.1.0) == p.1,
                p.0.0 < g1@.len() && p.1.0 < g2@.len(),
                t@ == t0,
                pairs_in(g1@, g2@, t0),
                i <= t0.len(),
                stop ==> i < t0.len() && key_lt(pair_key(g1@, g2@, p), pair_key(g1@, g2@, t0[i as int])),
                insert_by_key(g1@, g2@, t0, p) == t0.take(i as int) + insert_by_key(g1@, g2@, t0.skip(i as int), p),
            decreases t0.len() - i, if stop { 0int } else { 1int },
        {
            let q = t[i];
            proof {
                assert(q == t0[i as int]);
                assert(NodeId(q.0.0) == q.0 && NodeId(q.1.0) == q.1);
            }
            if key_before(ids1, ids2, p, q) {
                stop = true;
            } else {
                proof {
                    let u = t0.skip(i as int);
                    assert(u[0] == t0[i as int]);
                    assert(u.drop_first() =~= t0.skip(i + 1));
                    assert(t0.take(i + 1) =~= t0.take(i as int) + seq![u[0]]);
                    assert(insert_by_key(g1@, g2@, u, p) == seq![u[0]] + insert_by_key(g1@, g2@, t0.skip(i + 1), p));
                    assert(t0.take(i as int) + (seq![u[0]] + insert_by_key(g1@, g2@, t0.skip(i + 1), p)) =~= t0.take(i + 1)
                        + insert_by_key(g1@, g2@, t0.skip(i + 1), p));
                }
                i = i + 1;
            }
        }
        t.insert(i, p);
        proof {
            let u = t0.skip(i as int);
            if i < t0.len() {
                assert(insert_by_key(g1@, g2@, u, p) == seq![p] + u);
            } else {
                assert(u =~= Seq::<(NodeId, NodeId)>::empty());
            }
            assert(t@ =~= t0.take(i as int) + (seq![p] + u));
            assert forall|q: int| 0 <= q < t@.len() implies (#[trigger] t@[q]).0.0 < g1@.len() && t@[q].1.0 < g2@.len() by {
                if q < i {
                    assert(t@[q] == t0[q]);
                } else if q > i {
                    assert(t@[q] == t0[q - 1]);
                }
            }
        }
        n = n + 1;
    }
    proof {
        assert(s@.take(s@.len() as int) =~= s@);
    }
    t
}

/// Every pair of `dedup_pairs(s)` is a pair of `s`.
proof fn lemma_dedup_pairs_from(s: Seq<(NodeId, NodeId)>)
    ensures
        forall|k: int| 0 <= k < dedup_pairs(s).len() ==> s.contains(#[trigger] dedup_pairs(s)[k]),
    decreases s.len(),
{
    if s.len() > 0 {
        lemma_dedup_pairs_from(s.drop_last());
        let d = dedup_pairs(s.drop_last());
        assert forall|k: int| 0 <= k < dedup_pairs(s).len() implies s.contains(#[trigger] dedup_pairs(s)[k]) by {
            if k < d.len() {
                assert(dedup_pairs(s)[k] == d[k]);
                let j = choose|j: int| 0 <= j < s.drop_last().len() && s.drop_last()[j] == d[k];
                assert(s[j] == d[k]);
            } else {
                assert(s[s.len() - 1] == s.last());
            }
        }
    }
}

/// `dedup_pairs` keeps each pair once.
proof fn lemma_dedup_pairs_unique(s: Seq<(NodeId, NodeId)>)
    ensures
        dedup_pairs(s).no_duplicates(),
    decreases s.len(),
{
    if s.len() > 0 {
        lemma_dedup_pairs_unique(s.drop_last());
        let d = dedup_pairs(s.drop_last());
        if !d.contains(s.last()) {
            assert forall|a: int, b: int| 0 <= a < b < d.push(s.last()).len() implies d.push(s.last())[a]
                != d.push(s.last())[b] by {
                if b == d.len() {
                    assert(d.push(s.last())[a] == d[a]);
                }
            }
        }
    }
}

/// Filtering keeps a sequence free of repeats.
proof fn lemma_filter_pairs_unique(s: Seq<(NodeId, NodeId)>, p: spec_fn((NodeId, NodeId)) -> bool)
    requires
        s.no_duplicates(),
    ensures
        s.filter(p).no_duplicates(),
    decreases s.len(),
{
    reveal(Seq::filter);
    if s.len() > 0 {
        let d = s.drop_last();
        assert(d.no_duplicates()) by {
            assert forall|a: int, b: int| 0 <= a < b < d.len() implies d[a] != d[b] by {
                assert(d[a] == s[a] && d[b] == s[b]);
            }
        }
        lemma_filter_pairs_unique(d, p);
        if p(s.last()) {
            let f = d.filter(p);
            assert(!f.contains(s.last())) by {
                if f.contains(s.last()) {
                    d.lemma_filter_contains_rev(p, s.last());
                    let i = choose|i: int| 0 <= i < d.len() && d[i] == s.last();
                    assert(s[i] == s[s.len() - 1]);
                }
            }
            assert forall|a: int, b: int| 0 <= a < b < f.push(s.last()).len() implies f.push(s.last())[a]
                != f.push(s.last())[b] by {
                if b == f.len() {
                    assert(f.push(s.last())[a] == f[a]);
                }
            }
        }
    }
}

/// The equivalent pairs hold each pair once, and, unless primary nodes are
/// wanted, only pairs whose first node has parents.
pub proof fn law_equivalent_pairs_unique(g1: GraphModel, g2: GraphModel, with_primary_nodes: bool)
    ensures
        equivalent_pairs(g1, g2, with_primary_nodes).no_duplicates(),
        !with_primary_nodes ==> forall|k: int|
            0 <= k < equivalent_pairs(g1, g2, with_primary_nodes).len() ==> g1.parents(
                (#[trigger] equivalent_pairs(g1, g2, with_primary_nodes)[k]).0,
            ).len() > 0,
{
    let d = dedup_pairs(sort_by_key(g1, g2, pairs_rows(g1, g2, g1.order.len())));
    lemma_dedup_pairs_unique(sort_by_key(g1, g2, pairs_rows(g1, g2, g1.order.len())));
    if !with_primary_nodes {
        let p = |q: (NodeId, NodeId)| g1.parents(q.0).len() > 0;
        lemma_filter_pairs_unique(d, p);
        assert forall|k: int| 0 <= k < d.filter(p).len() implies g1.parents((#[trigger] d.filter(p)[k]).0).len() > 0 by {
            d.lemma_filter_pred(p, k);
        }
    }
}

/// `chars_lt` is transitive.
proof fn lemma_chars_lt_trans(a: Seq<char>, b: Seq<char>, c: Seq<char>)
    requires
        chars_lt(a, b),
        chars_lt(b, c),
    ensures
        chars_lt(a, c),
    decreases a.len(),
{
    if a.len() > 0 && b.len() > 0 && c.len() > 0 && a[0] == b[0] && b[0] == c[0] {
        lemma_chars_lt_trans(a.drop_first(), b.drop_first(), c.drop_first());
    }
}

/// No sequence comes before itself.
proof fn lemma_chars_lt_irrefl(a: Seq<char>)
    ensures
        !chars_lt(a, a),
    decreases a.len(),
{
    if a.len() > 0 {
        lemma_chars_lt_irrefl(a.drop_first());
    }
}

/// `key_lt` is transitive.
proof fn lemma_key_lt_trans(a: (Seq<char>, Seq<char>), b: (Seq<char>, Seq<char>), c: (Seq<char>, Seq<char>))
    requires
        key_lt(a, b),
        key_lt(b, c),
    ensures
        key_lt(a, c),
{
    if chars_lt(a.0, b.0) && chars_lt(b.0, c.0) {
        lemma_chars_lt_trans(a.0, b.0, c.0);
    } else if a.0 == b.0 && b.0 == c.0 {
        lemma_chars_lt_trans(a.1, b.1, c.1);
    }
}

/// No pair of `t` comes after a later one by key.
pub open spec fn sorted_by_key(g1: GraphModel, g2: GraphModel, t: Seq<(NodeId, NodeId)>) -> bool {
    forall|i: int, j: int| 0 <= i < j < t.len() ==> !key_lt(pair_key(g1, g2, #[trigger] t[j]), pair_key(g1, g2, #[trigger] t[i]))
}

/// Inserting by key keeps a list sorted, and adds only the inserted pair.
proof fn lemma_insert_sorted(g1: GraphModel, g2: GraphModel, t: Seq<(NodeId, NodeId)>, p: (NodeId, NodeId))
    requires
        sorted_by_key(g1, g2, t),
    ensures
        sorted_by_key(g1, g2, insert_by_key(g1, g2, t, p)),
        forall|x: (NodeId, NodeId)| #[trigger] insert_by_key(g1, g2, t, p).contains(x) ==> x == p || t.contains(x),
    decreases t.len(),
{
    let r = insert_by_key(g1, g2, t, p);
    if t.len() == 0 {
        assert forall|x: (NodeId, NodeId)| r.contains(x) implies x == p || t.contains(x) by {
            let k = choose|k: int| 0 <= k < r.len() && r[k] == x;
        }
    } else if key_lt(pair_key(g1, g2, p), pair_key(g1, g2, t[0])) {
        assert forall|i: int, j: int| 0 <= i < j < r.len() implies !key_lt(pair_key(g1, g2, #[trigger] r[j]), pair_key(g1, g2, #[trigger] r[i])) by {
            if i == 0 {
                assert(r[j] == t[j - 1]);
                if j - 1 > 0 {
                    assert(!key_lt(pair_key(g1, g2, t[j - 1]), pair_key(g1, g2, t[0])));
                }
                if key_lt(pair_key(g1, g2, t[j - 1]), pair_key(g1, g2, p)) {
                    lemma_key_lt_trans(pair_key(g1, g2, t[j - 1]), pair_key(g1, g2, p), pair_key(g1, g2, t[0]));
                    lemma_chars_lt_irrefl(pair_key(g1, g2, t[0]).0);
                    lemma_chars_lt_irrefl(pair_key(g1, g2, t[0]).1);
                }
            } else {
                assert(r[i] == t[i - 1] && r[j] == t[j - 1]);
            }
        }
        assert forall|x: (NodeId, NodeId)| r.contains(x) implies x == p || t.contains(x) by {
            let k = choose|k: int| 0 <= k < r.len() && r[k] == x;
            if k > 0 {
                assert(t[k - 1] == x);
            }
        }
    } else {
        let rest = t.drop_first();
        assert(sorted_by_key(g1, g2, rest)) by {
            assert forall|i: int, j: int| 0 <= i < j < rest.len() implies !key_lt(pair_key(g1, g2, #[trigger] rest[j]), pair_key(g1, g2, #[trigger] rest[i])) by {
                assert(rest[i] == t[i + 1] && rest[j] == t[j + 1]);
            }
        }
        lemma_insert_sorted(g1, g2, rest, p);
        let sub = insert_by_key(g1, g2, rest, p);
        assert(r == seq![t[0]] + sub);
        assert forall|i: int, j: int| 0 <= i < j < r.len() implies !key_lt(pair_key(g1, g2, #[trigger] r[j]), pair_key(g1, g2, #[trigger] r[i])) by {
            if i == 0 {
                assert(r[j] == sub[j - 1]);
                assert(sub.contains(sub[j - 1]));
                if sub[j - 1] != p {
                    let k = choose|k: int| 0 <= k < rest.len() && rest[k] == sub[j - 1];
                    assert(rest[k] == t[k + 1]);
                }
            } else {
                assert(r[i] == sub[i - 1] && r[j] == sub[j - 1]);
            }
        }
        assert forall|x: (NodeId, NodeId)| r.contains(x) implies x == p || t.contains(x) by {
            let k = choose|k: int| 0 <= k < r.len() && r[k] == x;
            if k == 0 {
                assert(t[0] == x);
            } else {
                assert(sub[k - 1] == x);
                assert(sub.contains(x));
                if x != p {
                    let q = choose|q: int| 0 <= q < rest.len() && rest[q] == x;
                    assert(t[q + 1] == x);
                }
            }
        }
    }
}

/// Sorting by key gives a sorted list.
proof fn lemma_sort_sorted(g1: GraphModel, g2: GraphModel, s: Seq<(NodeId, NodeId)>)
    ensures
        sorted_by_key(g1, g2, sort_by_key(g1, g2, s)),
    decreases s.len(),
{
    if s.len() > 0 {
        lemma_sort_sorted(g1, g2, s.drop_last());
        lemma_insert_sorted(g1, g2, sort_by_key(g1, g2, s.drop_last()), s.last());
    }
}

/// Keeping each pair once keeps a sorted list sorted.
proof fn lemma_dedup_sorted(g1: GraphModel, g2: GraphModel, s: Seq<(NodeId, NodeId)>)
    requires
        sorted_by_key(g1, g2, s),
    ensures
        sorted_by_key(g1, g2, dedup_pairs(s)),
    decreases s.len(),
{
    if s.len() > 0 {
        let d0 = s.drop_last();
        assert(sorted_by_key(g1, g2, d0)) by {
            assert forall|i: int, j: int| 0 <= i < j < d0.len() implies !key_lt(pair_key(g1, g2, #[trigger] d0[j]), pair_key(g1, g2, #[trigger] d0[i])) by {
                assert(d0[i] == s[i] && d0[j] == s[j]);
            }
        }
        lemma_dedup_sorted(g1, g2, d0);
        lemma_dedup_pairs_from(d0);
        let d = dedup_pairs(d0);
        if !d.contains(s.last()) {
            let r = d.push(s.last());
            assert forall|i: int, j: int| 0 <= i < j < r.len() implies !key_lt(pair_key(g1, g2, #[trigger] r[j]), pair_key(g1, g2, #[trigger] r[i])) by {
                if j == d.len() {
                    assert(r[i] == d[i]);
                    assert(d0.contains(d[i]));
                    let k = choose|k: int| 0 <= k < d0.len() && d0[k] == d[i];
                    assert(s[k] == d[i]);
                    assert(r[j] == s[s.len() - 1]);
                } else {
                    assert(r[i] == d[i] && r[j] == d[j]);
                }
            }
        }
    }
}

/// Filtering keeps a sorted list sorted.
proof fn lemma_filter_sorted(g1: GraphModel, g2: GraphModel, s: Seq<(NodeId, NodeId)>, p: spec_fn((NodeId, NodeId)) -> bool)
    requires
        sorted_by_key(g1, g2, s),
    ensures
        sorted_by_key(g1, g2, s.filter(p)),
    decreases s.len(),
{
    reveal(Seq::filter);
    if s.len() > 0 {
        let d0 = s.drop_last();
        assert(sorted_by_key(g1, g2, d0)) by {
            assert forall|i: int, j: int| 0 <= i < j < d0.len() implies !key_lt(pair_key(g1, g2, #[trigger] d0[j]), pair_key(g1, g2, #[trigger] d0[i])) by {
                assert(d0[i] == s[i] && d0[j] == s[j]);
            }
        }
        lemma_filter_sorted(g1, g2, d0, p);
        let f = d0.filter(p);
        if p(s.last()) {
            let r = f.push(s.last());
            assert forall|i: int, j: int| 0 <= i < j < r.len() implies !key_lt(pair_key(g1, g2, #[trigger] r[j]), pair_key(g1, g2, #[trigger] r[i])) by {
                if j == f.len() {
                    assert(r[i] == f[i]);
                    assert(f.contains(f[i]));
                    d0.lemma_filter_contains_rev(p, f[i]);
                    let k = choose|k: int| 0 <= k < d0.len() && d0[k] == f[i];
                    assert(s[k] == f[i]);
                    assert(r[j] == s[s.len() - 1]);
                } else {
                    assert(r[i] == f[i] && r[j] == f[j]);
                }
            }
        }
    }
}

/// The equivalent pairs come sorted by the descriptive ids of their nodes:
/// no pair comes after a later one.
pub proof fn law_equivalent_pairs_sorted(g1: GraphModel, g2: GraphModel, with_primary_nodes: bool)
    ensures
        sorted_by_key(g1, g2, equivalent_pairs(g1, g2, with_primary_nodes)),
{
    let s = sort_by_key(g1, g2, pairs_rows(g1, g2, g1.order.len()));
    lemma_sort_sorted(g1, g2, pairs_rows(g1, g2, g1.order.len()));
    lemma_dedup_sorted(g1, g2, s);
    if !with_primary_nodes {
        lemma_filter_sorted(g1, g2, dedup_pairs(s), |q: (NodeId, NodeId)| g1.parents(q.0).len() > 0);
    }
}

/// The two nodes of `p` have as many parents, and both are primary or
/// neither is.
pub open spec fn pair_matches(g1: GraphModel, g2: GraphModel, p: (NodeId, NodeId)) -> bool {
    g1.parents(p.0).len() == g2.parents(p.1).len() && is_primary_node(g1, p.0) == is_primary_node(g2, p.1)
}

/// Every pair of `m` matches.
pub open spec fn all_match(g1: GraphModel, g2: GraphModel, m: Seq<(NodeId, NodeId)>) -> bool {
    forall|k: int| 0 <= k < m.len() ==> pair_matches(g1, g2, #[trigger] m[k])
}

/// Joining lists of matching pairs gives matching pairs.
proof fn lemma_match_concat(g1: GraphModel, g2: GraphModel, a: Seq<(NodeId, NodeId)>, b: Seq<(NodeId, NodeId)>)
    requires
        all_match(g1, g2, a),
        all_match(g1, g2, b),
    ensures
        all_match(g1, g2, a + b),
{
    assert forall|k: int| 0 <= k < (a + b).len() implies pair_matches(g1, g2, #[trigger] (a + b)[k]) by {
        if k < a.len() {
            assert((a + b)[k] == a[k]);
        } else {
            assert((a + b)[k] == b[k - a.len()]);
        }
    }
}

/// The structural search from `(x, y)` finds only matching pairs.
proof fn lemma_equiv_match(g1: GraphModel, g2: GraphModel, x: NodeId, y: NodeId, s1: Seq<NodeId>, s2: Seq<NodeId>, fuel: nat)
    ensures
        all_match(g1, g2, struct_equiv(g1, g2, x, y, s1, s2, fuel).0),
    decreases fuel, 2nat, 0nat,
{
    if !(fuel == 0 || s1.contains(x) || s2.contains(y)) {
        let ps1 = g1.parents(x);
        let ps2 = g2.parents(y);
        lemma_rows_match(g1, g2, ps1, ps2, ps1.len(), s1.push(x), s2.push(y), fuel);
        let r = equiv_rows(g1, g2, ps1, ps2, ps1.len(), s1.push(x), s2.push(y), fuel);
        let keep = ps1.len() == ps2.len() && subtrees_same(g1, g2, r.0, x, y) && is_primary_node(g1, x) == is_primary_node(g2, y);
        if keep {
            assert forall|k: int| 0 <= k < r.0.push((x, y)).len() implies pair_matches(g1, g2, #[trigger] r.0.push((x, y))[k]) by {
                if k < r.0.len() {
                    assert(r.0.push((x, y))[k] == r.0[k]);
                }
            }
        }
    }
}

/// The searches of a row of parent pairs find only matching pairs.
proof fn lemma_rows_match(
    g1: GraphModel,
    g2: GraphModel,
    ps1: Seq<NodeId>,
    ps2: Seq<NodeId>,
    i: nat,
    s1: Seq<NodeId>,
    s2: Seq<NodeId>,
    fuel: nat,
)
    ensures
        all_match(g1, g2, equiv_rows(g1, g2, ps1, ps2, i, s1, s2, fuel).0),
    decreases fuel, 1nat, i,
{
    if !(i == 0 || i > ps1.len()) {
        lemma_rows_match(g1, g2, ps1, ps2, (i - 1) as nat, s1, s2, fuel);
        let a = equiv_rows(g1, g2, ps1, ps2, (i - 1) as nat, s1, s2, fuel);
        lemma_row_match(g1, g2, ps1[i - 1], ps2, ps2.len(), a.1, a.2, fuel);
        let b = equiv_row(g1, g2, ps1[i - 1], ps2, ps2.len(), a.1, a.2, fuel);
        lemma_match_concat(g1, g2, a.0, b.0);
    }
}

/// The searches from `x` with parents of the other node find only matching
/// pairs.
proof fn lemma_row_match(
    g1: GraphModel,
    g2: GraphModel,
    x: NodeId,
    ps2: Seq<NodeId>,
    j: nat,
    s1: Seq<NodeId>,
    s2: Seq<NodeId>,
    fuel: nat,
)
    ensures
        all_match(g1, g2, equiv_row(g1, g2, x, ps2, j, s1, s2, fuel).0),
    decreases fuel, 0nat, j,
{
    if !(j == 0 || j > ps2.len() || fuel == 0) {
        lemma_row_match(g1, g2, x, ps2, (j - 1) as nat, s1, s2, fuel);
        let c = equiv_row(g1, g2, x, ps2, (j - 1) as nat, s1, s2, fuel);
        lemma_equiv_match(g1, g2, x, ps2[j - 1], c.1, c.2, (fuel - 1) as nat);
        let d = struct_equiv(g1, g2, x, ps2[j - 1], c.1, c.2, (fuel - 1) as nat);
        lemma_match_concat(g1, g2, c.0, d.0);
    }
}

/// The pairs found along a row match.
proof fn lemma_pairs_row_match(g1: GraphModel, g2: GraphModel, x: NodeId, ys: Seq<NodeId>, j: nat, acc: Seq<(NodeId, NodeId)>)
    requires
        all_match(g1, g2, acc),
    ensures
        all_match(g1, g2, pairs_row(g1, g2, x, ys, j, acc)),
    decreases j,
{
    if !(j == 0 || j > ys.len()) {
        lemma_pairs_row_match(g1, g2, x, ys, (j - 1) as nat, acc);
        let a = pairs_row(g1, g2, x, ys, (j - 1) as nat, acc);
        if !a.contains((x, ys[j - 1])) {
            lemma_equiv_match(g1, g2, x, ys[j - 1], Seq::empty(), Seq::empty(), (g1.len() + 1) as nat);
            lemma_match_concat(g1, g2, a, struct_equiv(g1, g2, x, ys[j - 1], Seq::empty(), Seq::empty(), (g1.len() + 1) as nat).0);
        }
    }
}

/// The pairs found from the first `i` active nodes match.
proof fn lemma_pairs_rows_match(g1: GraphModel, g2: GraphModel, i: nat)
    ensures
        all_match(g1, g2, pairs_rows(g1, g2, i)),
    decreases i,
{
    if !(i == 0 || i > g1.order.len()) {
        lemma_pairs_rows_match(g1, g2, (i - 1) as nat);
        lemma_pairs_row_match(g1, g2, g1.order[i - 1], g2.order, g2.order.len(), pairs_rows(g1, g2, (i - 1) as nat));
    }
}

/// Each equivalent pair joins two nodes with as many parents, both primary or
/// neither.
pub proof fn law_equivalent_pairs_match(g1: GraphModel, g2: GraphModel, with_primary_nodes: bool)
    ensures
        all_match(g1, g2, equivalent_pairs(g1, g2, with_primary_nodes)),
{
    let rows = pairs_rows(g1, g2, g1.order.len());
    lemma_pairs_rows_match(g1, g2, g1.order.len());
    let s = sort_by_key(g1, g2, rows);
    lemma_sort_members(g1, g2, rows);
    assert forall|k: int| 0 <= k < s.len() implies pair_matches(g1, g2, #[trigger] s[k]) by {
        assert(s.contains(s[k]));
        let q = choose|q: int| 0 <= q < rows.len() && rows[q] == s[k];
    }
    let d = dedup_pairs(s);
    lemma_dedup_pairs_from(s);
    assert forall|k: int| 0 <= k < d.len() implies pair_matches(g1, g2, #[trigger] d[k]) by {
        let q = choose|q: int| 0 <= q < s.len() && s[q] == d[k];
    }
    if !with_primary_nodes {
        let p = |q: (NodeId, NodeId)| g1.parents(q.0).len() > 0;
        assert forall|k: int| 0 <= k < d.filter(p).len() implies pair_matches(g1, g2, #[trigger] d.filter(p)[k]) by {
            assert(d.filter(p).contains(d.filter(p)[k]));
            d.lemma_filter_contains_rev(p, d.filter(p)[k]);
            let q = choose|q: int| 0 <= q < d.len() && d[q] == d.filter(p)[k];
        }
    }
}

/// Sorting by key keeps only pairs of the list.
proof fn lemma_sort_members(g1: GraphModel, g2: GraphModel, s: Seq<(NodeId, NodeId)>)
    ensures
        forall|x: (NodeId, NodeId)| #[trigger] sort_by_key(g1, g2, s).contains(x) ==> s.contains(x),
    decreases s.len(),
{
    if s.len() > 0 {
        lemma_sort_members(g1, g2, s.drop_last());
        let t = sort_by_key(g1, g2, s.drop_last());
        lemma_sort_sorted(g1, g2, s.drop_last());
        lemma_insert_sorted(g1, g2, t, s.last());
        assert forall|x: (NodeId, NodeId)| #[trigger] sort_by_key(g1, g2, s).contains(x) implies s.contains(x) by {
            if x == s.last() {
                assert(s[s.len() - 1] == x);
            } else {
                assert(t.contains(x));
                assert(s.drop_last().contains(x));
                let q = choose|q: int| 0 <= q < s.drop_last().len() && s.drop_last()[q] == x;
                assert(s[q] == x);
            }
        }
    }
}

/// Both nodes of every pair of `m` are active, each in its graph.
pub open spec fn all_active(g1: GraphModel, g2: GraphModel, m: Seq<(NodeId, NodeId)>) -> bool {
    forall|k: int| 0 <= k < m.len() ==> g1.is_active((#[trigger] m[k]).0) && g2.is_active(m[k].1)
}

/// Joining lists of pairs of active nodes gives pairs of active nodes.
proof fn lemma_active_concat(g1: GraphModel, g2: GraphModel, a: Seq<(NodeId, NodeId)>, b: Seq<(NodeId, NodeId)>)
    requires
        all_active(g1, g2, a),
        all_active(g1, g2, b),
    ensures
        all_active(g1, g2, a + b),
{
    assert forall|k: int| 0 <= k < (a + b).len() implies g1.is_active((#[trigger] (a + b)[k]).0) && g2.is_active(
        (a + b)[k].1,
    ) by {
        if k < a.len() {
            assert((a + b)[k] == a[k]);
        } else {
            assert((a + b)[k] == b[k - a.len()]);
        }
    }
}

/// The structural search from two active nodes finds only pairs of active
/// nodes, when parents of active nodes are active.
proof fn lemma_equiv_active(g1: GraphModel, g2: GraphModel, x: NodeId, y: NodeId, s1: Seq<NodeId>, s2: Seq<NodeId>, fuel: nat)
    requires
        active_closed(g1),
        active_closed(g2),
        g1.is_active(x),
        g2.is_active(y),
    ensures
        all_active(g1, g2, struct_equiv(g1, g2, x, y, s1, s2, fuel).0),
    decreases fuel, 2nat, 0nat,
{
    if !(fuel == 0 || s1.contains(x) || s2.contains(y)) {
        let ps1 = g1.parents(x);
        let ps2 = g2.parents(y);
        assert(g1.parents_active(x));
        assert(g2.parents_active(y));
        lemma_rows_active(g1, g2, ps1, ps2, ps1.len(), s1.push(x), s2.push(y), fuel);
        let r = equiv_rows(g1, g2, ps1, ps2, ps1.len(), s1.push(x), s2.push(y), fuel);
        assert forall|k: int| 0 <= k < r.0.push((x, y)).len() implies g1.is_active((#[trigger] r.0.push((x, y))[k]).0)
            && g2.is_active(r.0.push((x, y))[k].1) by {
            if k < r.0.len() {
                assert(r.0.push((x, y))[k] == r.0[k]);
            }
        }
    }
}

/// The searches of a row of active parent pairs find only pairs of active nodes.
proof fn lemma_rows_active(
    g1: GraphModel,
    g2: GraphModel,
    ps1: Seq<NodeId>,
    ps2: Seq<NodeId>,
    i: nat,
    s1: Seq<NodeId>,
    s2: Seq<NodeId>,
    fuel: nat,
)
    requires
        active_closed(g1),
        active_closed(g2),
        forall|j: int| 0 <= j < ps1.len() ==> g1.is_active(#[trigger] ps1[j]),
        forall|j: int| 0 <= j < ps2.len() ==> g2.is_active(#[trigger] ps2[j]),
    ensures
        all_active(g1, g2, equiv_rows(g1, g2, ps1, ps2, i, s1, s2, fuel).0),
    decreases fuel, 1nat, i,
{
    if !(i == 0 || i > ps1.len()) {
        lemma_rows_active(g1, g2, ps1, ps2, (i - 1) as nat, s1, s2, fuel);
        let a = equiv_rows(g1, g2, ps1, ps2, (i - 1) as nat, s1, s2, fuel);
        lemma_row_active(g1, g2, ps1[i - 1], ps2, ps2.len(), a.1, a.2, fuel);
        let b = equiv_row(g1, g2, ps1[i - 1], ps2, ps2.len(), a.1, a.2, fuel);
        lemma_active_concat(g1, g2, a.0, b.0);
    }
}

/// The searches from an active `x` with active nodes of the other graph find
/// only pairs of active nodes.
proof fn lemma_row_active(
    g1: GraphModel,
    g2: GraphModel,
    x: NodeId,
    ps2: Seq<NodeId>,
    j: nat,
    s1: Seq<NodeId>,
    s2: Seq<NodeId>,
    fuel: nat,
)
    requires
        active_closed(g1),
        active_closed(g2),
        g1.is_active(x),
        forall|t: int| 0 <= t < ps2.len() ==> g2.is_active(#[trigger] ps2[t]),
    ensures
        all_active(g1, g2, equiv_row(g1, g2, x, ps2, j, s1, s2, fuel).0),
    decreases fuel, 0nat, j,
{
    if !(j == 0 || j > ps2.len() || fuel == 0) {
        lemma_row_active(g1, g2, x, ps2, (j - 1) as nat, s1, s2, fuel);
        let c = equiv_row(g1, g2, x, ps2, (j - 1) as nat, s1, s2, fuel);
        lemma_equiv_active(g1, g2, x, ps2[j - 1], c.1, c.2, (fuel - 1) as nat);
        let d = struct_equiv(g1, g2, x, ps2[j - 1], c.1, c.2, (fuel - 1) as nat);
        lemma_active_concat(g1, g2, c.0, d.0);
    }
}

/// The pairs found along the rows of active nodes are pairs of active nodes.
proof fn lemma_pairs_rows_active(g1: GraphModel, g2: GraphModel, i: nat)
    requires
        active_closed(g1),
        active_closed(g2),
    ensures
        all_active(g1, g2, pairs_rows(g1, g2, i)),
    decreases i,
{
    if !(i == 0 || i > g1.order.len()) {
        lemma_pairs_rows_active(g1, g2, (i - 1) as nat);
        lemma_pairs_row_active(g1, g2, g1.order[i - 1], g2.order, g2.order.len(), pairs_rows(g1, g2, (i - 1) as nat));
    }
}

/// The pairs found along one row of active nodes are pairs of active nodes.
proof fn lemma_pairs_row_active(g1: GraphModel, g2: GraphModel, x: NodeId, ys: Seq<NodeId>, j: nat, acc: Seq<(NodeId, NodeId)>)
    requires
        active_closed(g1),
        active_closed(g2),
        g1.is_active(x),
        ys == g2.order,
        all_active(g1, g2, acc),
    ensures
        all_active(g1, g2, pairs_row(g1, g2, x, ys, j, acc)),
    decreases j,
{
    if !(j == 0 || j > ys.len()) {
        lemma_pairs_row_active(g1, g2, x, ys, (j - 1) as nat, acc);
        let a = pairs_row(g1, g2, x, ys, (j - 1) as nat, acc);
        if !a.contains((x, ys[j - 1])) {
            assert(g2.is_active(ys[j - 1]));
            lemma_equiv_active(g1, g2, x, ys[j - 1], Seq::empty(), Seq::empty(), (g1.len() + 1) as nat);
            lemma_active_concat(g1, g2, a, struct_equiv(g1, g2, x, ys[j - 1], Seq::empty(), Seq::empty(), (g1.len() + 1) as nat).0);
        }
    }
}

/// When every parent of an active node is active, in both graphs, both
/// nodes of every equivalent pair are active.
pub proof fn law_equivalent_pairs_active(g1: GraphModel, g2: GraphModel, with_primary_nodes: bool)
    requires
        active_closed(g1),
        active_closed(g2),
    ensures
        all_active(g1, g2, equivalent_pairs(g1, g2, with_primary_nodes)),
{
    let rows = pairs_rows(g1, g2, g1.order.len());
    lemma_pairs_rows_active(g1, g2, g1.order.len());
    let s = sort_by_key(g1, g2, rows);
    lemma_sort_members(g1, g2, rows);
    assert forall|k: int| 0 <= k < s.len() implies g1.is_active((#[trigger] s[k]).0) && g2.is_active(s[k].1) by {
        assert(s.contains(s[k]));
        let q = choose|q: int| 0 <= q < rows.len() && rows[q] == s[k];
    }
    let d = dedup_pairs(s);
    lemma_dedup_pairs_from(s);
    assert forall|k: int| 0 <= k < d.len() implies g1.is_active((#[trigger] d[k]).0) && g2.is_active(d[k].1) by {
        let q = choose|q: int| 0 <= q < s.len() && s[q] == d[k];
    }
    if !with_primary_nodes {
        let p = |q: (NodeId, NodeId)| g1.parents(q.0).len() > 0;
        assert forall|k: int| 0 <= k < d.filter(p).len() implies g1.is_active((#[trigger] d.filter(p)[k]).0)
            && g2.is_active(d.filter(p)[k].1) by {
            assert(d.filter(p).contains(d.filter(p)[k]));
            d.lemma_filter_contains_rev(p, d.filter(p)[k]);
            let q = choose|q: int| 0 <= q < d.len() && d[q] == d.filter(p)[k];
        }
    }
}

/// The equivalent pairs of the two graphs (see [`equivalent_pairs`]): every
/// pair of active nodes is searched from, pairs already found are not
/// searched again, and the pairs found are sorted by the descriptive ids of
/// their nodes, kept once each, and, unless `with_primary_nodes`, kept only
/// when their first node has parents.
pub fn equivalent_subtree(g1: &LinkedGraph, g2: &LinkedGraph, with_primary_nodes: bool) -> (r: Vec<(NodeId, NodeId)>)
    requires
        g1@.wf(),
        g2@.wf(),
        g1@.len() < usize::MAX,
        g2@.len() < usize::MAX,
    ensures
        r@ == equivalent_pairs(g1@, g2@, with_primary_nodes),
        pairs_in(g1@, g2@, r@),
{
    let nodes1 = g1.nodes();
    let nodes2 = g2.nodes();
    let sizes1 = lineage_sizes(g1);
    let sizes2 = lineage_sizes(g2);
    let mut pairs: Vec<(NodeId, NodeId)> = Vec::new();
    let mut i: usize = 0;
    while i < nodes1.len()
        invariant
            g1@.wf(),
            g2@.wf(),
            g1@.len() < usize::MAX,
            nodes1@ == g1@.order,
            nodes2@ == g2@.order,
            sizes1@.len() == g1@.len(),
            sizes2@.len() == g2@.len(),
            forall|i: int| 0 <= i < sizes1@.len() ==> sizes1@[i] == lineage_size(g1@, NodeId(i as usize)),
            forall|i: int| 0 <= i < sizes2@.len() ==> sizes2@[i] == lineage_size(g2@, NodeId(i as usize)),
            i <= nodes1@.len(),
            pairs@ == pairs_rows(g1@, g2@, i as nat),
            pairs_in(g1@, g2@, pairs@),
        decreases nodes1@.len() - i,
    {
        let x = nodes1[i];
        let ghost acc = pairs@;
        proof {
            assert(g1@.order[i as int].0 < g1@.len());
        }
        let mut j: usize = 0;
        while j < nodes2.len()
            invariant
                g1@.wf(),
                g2@.wf(),
                g1@.len() < usize::MAX,
                nodes2@ == g2@.order,
                sizes1@.len() == g1@.len(),
                sizes2@.len() == g2@.len(),
                forall|i: int| 0 <= i < sizes1@.len() ==> sizes1@[i] == lineage_size(g1@, NodeId(i as usize)),
                forall|i: int| 0 <= i < sizes2@.len() ==> sizes2@[i] == lineage_size(g2@, NodeId(i as usize)),
                x.0 < g1@.len(),
                j <= nodes2@.len(),
                pairs@ == pairs_row(g1@, g2@, x, g2@.order, j as nat, acc),
                pairs_in(g1@, g2@, pairs@),
            decreases nodes2@.len() - j,
        {
            let y = nodes2[j];
            proof {
                assert(g2@.order[j as int].0 < g2@.len());
            }
            if !pairs_contain(&pairs, (x, y)) {
                let mut seen1: Vec<NodeId> = Vec::new();
                let mut seen2: Vec<NodeId> = Vec::new();
                let sub = search_pairs(g1, g2, &sizes1, &sizes2, x, y, &mut seen1, &mut seen2, Ghost((g1@.len() + 1) as nat));
                let ghost f0 = pairs@;
                let mut k: usize = 0;
                while k < sub.len()
                    invariant
                        pairs@ == f0 + sub@.take(k as int),
                        k <= sub@.len(),
                        pairs_in(g1@, g2@, f0),
                        pairs_in(g1@, g2@, sub@),
                    decreases sub@.len() - k,
                {
                    pairs.push(sub[k]);
                    proof {
                        assert(sub@.take(k + 1) =~= sub@.take(k as int).push(sub@[k as int]));
                    }
                    k = k + 1;
                }
                proof {
                    assert(sub@.take(sub@.len() as int) =~= sub@);
                    assert forall|q: int| 0 <= q < pairs@.len() implies (#[trigger] pairs@[q]).0.0 < g1@.len() && pairs@[q].1.0 < g2@.len() by {
                        if q < f0.len() {
                            assert(pairs@[q] == f0[q]);
                        } else {
                            assert(pairs@[q] == sub@[q - f0.len()]);
                        }
                    }
                }
            }
            j = j + 1;
        }
        i = i + 1;
    }
    let ids1 = desc_ids(g1);
    let ids2 = desc_ids(g2);
    let sorted = sort_pairs_by_key(g1, g2, &ids1, &ids2, &pairs);
    let mut kept: Vec<(NodeId, NodeId)> = Vec::new();
    let mut n: usize = 0;
    while n < sorted.len()
        invariant
            n <= sorted@.len(),
            kept@ == dedup_pairs(sorted@.take(n as int)),
        decreases sorted@.len() - n,
    {
        proof {
            assert(sorted@.take(n + 1).drop_last() =~= sorted@.take(n as int));
        }
        let p = sorted[n];
        if !pairs_contain(&kept, p) {
            kept.push(p);
        }
        n = n + 1;
    }
    proof {
        assert(sorted@.take(sorted@.len() as int) =~= sorted@);
        lemma_dedup_pairs_from(sorted@);
        assert forall|q: int| 0 <= q < kept@.len() implies (#[trigger] kept@[q]).0.0 < g1@.len() && kept@[q].1.0 < g2@.len() by {
            let j = choose|j: int| 0 <= j < sorted@.len() && sorted@[j] == kept@[q];
        }
    }
    if with_primary_nodes {
        return kept;
    }
    let ghost pred = |p: (NodeId, NodeId)| g1@.parents(p.0).len() > 0;
    let mut out: Vec<(NodeId, NodeId)> = Vec::new();
    let mut m: usize = 0;
    while m < kept.len()
        invariant
            g1@.wf(),
            pairs_in(g1@, g2@, kept@),
            m <= kept@.len(),
            out@ == kept@.take(m as int).filter(pred),
            pred == (|p: (NodeId, NodeId)| g1@.parents(p.0).len() > 0),
            pairs_in(g1@, g2@, out@),
        decreases kept@.len() - m,
    {
        let p = kept[m];
        proof {
            assert(kept@.take(m + 1).drop_last() =~= kept@.take(m as int));
            assert(NodeId(p.0.0) == p.0);
        }
        if g1.parents_of(p.0).len() > 0 {
            out.push(p);
        }
        proof {
            assert(kept@.take(m + 1).filter(pred) == if pred(p) {
                kept@.take(m as int).filter(pred).push(p)
            } else {
                kept@.take(m as int).filter(pred)
            }) by {
                reveal(Seq::filter);
                assert(kept@.take(m + 1).last() == p);
            }
        }
        m = m + 1;
    }
    proof {
        assert(kept@.take(kept@.len() as int) =~= kept@);
    }
    out
}

} // verus!
