use vstd::prelude::*;
use crate::dag::linked_graph::{lemma_filter_ext, same_structure, GraphModel, LinkedGraph};
use crate::dag::node::{NodeId, NodeModel};

verus! {

/// `a` comes before `b` in lexicographic order of their characters.
pub open spec fn chars_lt(a: Seq<char>, b: Seq<char>) -> bool
    decreases a.len(),
{
    if a.len() == 0 {
        b.len() > 0
    } else if b.len() == 0 {
        false
    } else if a[0] != b[0] {
        (a[0] as u32) < (b[0] as u32)
    } else {
        chars_lt(a.drop_first(), b.drop_first())
    }
}

/// `x` put into the sorted sequence `t` after every element that does not
/// come after it.
pub open spec fn insert_sorted(t: Seq<Seq<char>>, x: Seq<char>) -> Seq<Seq<char>>
    decreases t.len(),
{
    if t.len() == 0 {
        seq![x]
    } else if chars_lt(x, t[0]) {
        seq![x] + t
    } else {
        seq![t[0]] + insert_sorted(t.drop_first(), x)
    }
}

/// The strings of `s` in ascending lexicographic order.
pub open spec fn sort_strings(s: Seq<Seq<char>>) -> Seq<Seq<char>>
    decreases s.len(),
{
    if s.len() == 0 {
        Seq::empty()
    } else {
        insert_sorted(sort_strings(s.drop_last()), s.last())
    }
}

/// The strings of `s` joined with `sep` between each two.
pub open spec fn join(s: Seq<Seq<char>>, sep: Seq<char>) -> Seq<char>
    decreases s.len(),
{
    if s.len() == 0 {
        Seq::empty()
    } else if s.len() == 1 {
        s[0]
    } else {
        join(s.drop_last(), sep) + sep + s.last()
    }
}

/// The parameters as `{:?}` renders a map: `{k1: v1, k2: v2}`.
pub open spec fn params_text(ps: Seq<(String, String)>) -> Seq<char> {
    "{"@ + join(Seq::new(ps.len(), |j: int| ps[j].0@ + ": "@ + ps[j].1@), ", "@) + "}"@
}

/// The label of a node: `n_` followed by its name (its uid when the name is
/// empty) and, when it has parameters, `_` and the parameters.
pub open spec fn description(n: NodeModel) -> Seq<char> {
    let label = if n.name.len() == 0 {
        n.uid
    } else {
        n.name
    };
    if n.params.len() == 0 {
        "n_"@ + label
    } else {
        "n_"@ + label + "_"@ + params_text(n.params)
    }
}

/// The descriptive id of `x` reached along a path whose nodes have the uids
/// `visited`: `ID_CYCLED` when `x` closes a cycle; otherwise the sorted ids
/// of its parents, each followed by `;` and joined with `;`, in brackets, then
/// `/` and the label of `x`. `fuel` bounds the depth of the walk.
pub open spec fn desc_id(g: GraphModel, x: NodeId, visited: Seq<Seq<char>>, fuel: nat) -> Seq<char>
    decreases fuel, 0nat,
{
    let n = g.nodes[x.0 as int];
    if fuel == 0 || visited.contains(n.uid) {
        "ID_CYCLED"@
    } else if n.parents.len() == 0 {
        "/"@ + description(n)
    } else {
        "("@ + join(sort_strings(desc_items(g, n.parents, visited.push(n.uid), (fuel - 1) as nat)), ";"@) + ")"@ + "/"@
            + description(n)
    }
}

/// The descriptive ids of the nodes of `ps`, each followed by `;`.
pub open spec fn desc_items(g: GraphModel, ps: Seq<NodeId>, visited: Seq<Seq<char>>, fuel: nat) -> Seq<Seq<char>>
    decreases fuel, ps.len(),
{
    if ps.len() == 0 {
        Seq::empty()
    } else {
        desc_items(g, ps.drop_last(), visited, fuel).push(desc_id(g, ps.last(), visited, fuel) + ";"@)
    }
}

/// The descriptive id of `x`: a walk up to as many levels as the arena
/// holds nodes.
pub open spec fn node_desc_id(g: GraphModel, x: NodeId) -> Seq<char> {
    desc_id(g, x, Seq::empty(), g.len() + 1)
}

/// Whether `a` comes before `b` in lexicographic order.
pub fn str_lt(a: &String, b: &String) -> (r: bool)
    ensures
        r == chars_lt(a@, b@),
{
    let sa = a.as_str();
    let sb = b.as_str();
    let la = sa.unicode_len();
    let lb = sb.unicode_len();
    let mut i: usize = 0;
    proof {
        assert(a@.skip(0) =~= a@);
        assert(b@.skip(0) =~= b@);
        assert(a@.take(0) =~= b@.take(0));
    }
    while i < la && i < lb
        invariant
            la == a@.len(),
            lb == b@.len(),
            sa@ == a@,
            sb@ == b@,
            i <= la,
            i <= lb,
            a@.take(i as int) == b@.take(i as int),
            chars_lt(a@, b@) == chars_lt(a@.skip(i as int), b@.skip(i as int)),
        decreases la - i,
    {
        let ca = sa.get_char(i);
        let cb = sb.get_char(i);
        proof {
            assert(a@.skip(i as int)[0] == ca);
            assert(b@.skip(i as int)[0] == cb);
            assert(a@.skip(i as int).drop_first() =~= a@.skip(i + 1));
            assert(b@.skip(i as int).drop_first() =~= b@.skip(i + 1));
        }
        if ca != cb {
            return (ca as u32) < (cb as u32);
        }
        proof {
            assert(a@.take(i + 1) =~= a@.take(i as int).push(ca));
            assert(b@.take(i + 1) =~= b@.take(i as int).push(cb));
        }
        i = i + 1;
    }
    i < lb
}

/// `x` put into the sorted vector `t`, after every element that does not
/// come after it.
#[verifier::rlimit(40)]
fn insert_sorted_vec(t: &mut Vec<String>, x: String)
    ensures
        final(t)@.map_values(|s: String| s@) == insert_sorted(old(t)@.map_values(|s: String| s@), x@),
{
    let ghost t0 = t@.map_values(|s: String| s@);
    let mut i: usize = 0;
    let mut stop = false;
    proof {
        assert(t0.skip(0) =~= t0);
        assert(t0.take(0) + t0 =~= t0);
    }
    while i < t.len() && !stop
        invariant
            t0 == t@.map_values(|s: String| s@),
            t@ == old(t)@,
            i <= t@.len(),
            stop ==> i < t@.len() && chars_lt(x@, t0[i as int]),
            insert_sorted(t0, x@) == t0.take(i as int) + insert_sorted(t0.skip(i as int), x@),
        decreases t@.len() - i, if stop { 0int } else { 1int },
    {
        if str_lt(&x, &t[i]) {
            stop = true;
        } else {
            proof {
                let u = t0.skip(i as int);
                assert(u[0] == t@[i as int]@);
                assert(u.drop_first() =~= t0.skip(i + 1));
                assert(t0.take(i + 1) =~= t0.take(i as int) + seq![u[0]]);
                assert(insert_sorted(u, x@) == seq![u[0]] + insert_sorted(t0.skip(i + 1), x@));
                assert(t0.take(i as int) + (seq![u[0]] + insert_sorted(t0.skip(i + 1), x@)) =~= t0.take(i + 1)
                    + insert_sorted(t0.skip(i + 1), x@));
            }
            i = i + 1;
        }
    }
    let ghost before = t@;
    t.insert(i, x);
    proof {
        let u = t0.skip(i as int);
        if i < t0.len() {
            assert(u[0] == before[i as int]@);
            assert(chars_lt(x@, t0[i as int]));
            assert(insert_sorted(u, x@) == seq![x@] + u);
        } else {
            assert(u =~= Seq::<Seq<char>>::empty());
        }
        assert(t@.map_values(|s: String| s@) =~= t0.take(i as int) + (seq![x@] + u));
    }
}

/// The strings of `s` in ascending lexicographic order.
pub fn sort_strings_vec(s: Vec<String>) -> (r: Vec<String>)
    ensures
        r@.map_values(|x: String| x@) == sort_strings(s@.map_values(|x: String| x@)),
{
    let ghost sv = s@.map_values(|x: String| x@);
    let mut r: Vec<String> = Vec::new();
    let mut i: usize = 0;
    while i < s.len()
        invariant
            sv == s@.map_values(|x: String| x@),
            i <= s@.len(),
            r@.map_values(|x: String| x@) == sort_strings(sv.take(i as int)),
        decreases s@.len() - i,
    {
        let x = s[i].clone();
        proof {
            assert(sv.take(i + 1).drop_last() =~= sv.take(i as int));
            assert(sv.take(i + 1).last() == x@);
        }
        insert_sorted_vec(&mut r, x);
        i = i + 1;
    }
    proof {
        assert(sv.take(s@.len() as int) =~= sv);
    }
    r
}

/// The strings of `s` joined with `sep` between each two.
pub fn join_strings(s: &Vec<String>, sep: &str) -> (r: String)
    ensures
        r@ == join(s@.map_values(|x: String| x@), sep@),
{
    let ghost sv = s@.map_values(|x: String| x@);
    let mut r = String::new();
    let mut i: usize = 0;
    while i < s.len()
        invariant
            sv == s@.map_values(|x: String| x@),
            i <= s@.len(),
            r@ == join(sv.take(i as int), sep@),
        decreases s@.len() - i,
    {
        proof {
            assert(sv.take(i + 1).drop_last() =~= sv.take(i as int));
            assert(sv.take(i + 1).last() == s@[i as int]@);
        }
        if i > 0 {
            r.append(sep);
        }
        r.append(s[i].as_str());
        proof {
            if i == 0 {
                assert(sv.take(1) =~= seq![s@[0]@]);
                assert(r@ =~= s@[0]@);
            } else {
                assert(r@ =~= join(sv.take(i as int), sep@) + sep@ + s@[i as int]@);
            }
        }
        i = i + 1;
    }
    proof {
        assert(sv.take(s@.len() as int) =~= sv);
    }
    r
}

/// The parameters as `{:?}` renders a map.
fn params_text_exec(ps: &Vec<(String, String)>) -> (r: String)
    ensures
        r@ == params_text(ps@),
{
    let ghost items = Seq::new(ps@.len(), |j: int| ps@[j].0@ + ": "@ + ps@[j].1@);
    let mut parts: Vec<String> = Vec::new();
    let mut i: usize = 0;
    while i < ps.len()
        invariant
            items == Seq::new(ps@.len(), |j: int| ps@[j].0@ + ": "@ + ps@[j].1@),
            i <= ps@.len(),
            parts@.map_values(|x: String| x@) == items.take(i as int),
        decreases ps@.len() - i,
    {
        let mut item = ps[i].0.clone();
        item.append(": ");
        item.append(ps[i].1.as_str());
        let ghost before = parts@;
        parts.push(item);
        proof {
            assert(parts@.map_values(|x: String| x@) =~= before.map_values(|x: String| x@).push(items[i as int]));
            assert(items.take(i + 1) =~= items.take(i as int).push(items[i as int]));
        }
        i = i + 1;
    }
    proof {
        assert(items.take(ps@.len() as int) =~= items);
    }
    let joined = join_strings(&parts, ", ");
    let mut r = String::from_str("{");
    r.append(joined.as_str());
    r.append("}");
    r
}

/// The label of node `x`.
pub fn description_of(g: &LinkedGraph, x: NodeId) -> (r: String)
    requires
        x.0 < g@.len(),
    ensures
        r@ == description(g@.nodes[x.0 as int]),
{
    let content = g.content(x);
    let mut r = String::from_str("n_");
    if content.name.as_str().is_empty() {
        r.append(g.uid(x).as_str());
    } else {
        r.append(content.name.as_str());
    }
    if content.params.len() > 0 {
        r.append("_");
        let p = params_text_exec(&content.params);
        r.append(p.as_str());
    }
    r
}

/// Whether `v` holds the string `x`.
fn strings_contain(v: &Vec<String>, x: &String) -> (r: bool)
    ensures
        r == v@.map_values(|s: String| s@).contains(x@),
{
    let mut i: usize = 0;
    while i < v.len()
        invariant
            i <= v@.len(),
            forall|k: int| 0 <= k < i ==> v@[k]@ != x@,
        decreases v@.len() - i,
    {
        if v[i] == *x {
            proof {
                assert(v@.map_values(|s: String| s@)[i as int] == x@);
            }
            return true;
        }
        i = i + 1;
    }
    proof {
        if v@.map_values(|s: String| s@).contains(x@) {
            let m = v@.map_values(|s: String| s@);
            let k = choose|k: int| 0 <= k < m.len() && #[trigger] m[k] == x@;
            assert(v@[k]@ != x@);
        }
    }
    false
}

/// The descriptive id of `x` reached along a path whose nodes have the uids
/// `visited`, walking at most `fuel` levels.
fn desc_id_rec(g: &LinkedGraph, x: NodeId, visited: &Vec<String>, fuel: usize) -> (r: String)
    requires
        g@.wf(),
        x.0 < g@.len(),
    ensures
        r@ == desc_id(g@, x, visited@.map_values(|s: String| s@), fuel as nat),
    decreases fuel,
{
    let ghost vis = visited@.map_values(|s: String| s@);
    let uid = g.uid(x);
    if fuel == 0 || strings_contain(visited, uid) {
        return String::from_str("ID_CYCLED");
    }
    let label = description_of(g, x);
    let parents = g.parents_of(x);
    if parents.len() == 0 {
        let mut r = String::from_str("/");
        r.append(label.as_str());
        return r;
    }
    let mut inner = visited.clone();
    let ghost before = inner@;
    inner.push(uid.clone());
    let ghost vis2 = inner@.map_values(|s: String| s@);
    proof {
        assert(before.map_values(|s: String| s@) =~= vis) by {
            assert forall|k: int| 0 <= k < before.len() implies before[k]@ == visited@[k]@ by {
                assert(cloned::<String>(visited@[k], before[k]));
            }
        }
        assert(vis2 =~= vis.push(g@.nodes[x.0 as int].uid));
    }
    let mut items: Vec<String> = Vec::new();
    let mut j: usize = 0;
    while j < parents.len()
        invariant
            g@.wf(),
            x.0 < g@.len(),
            parents@ == g@.parents(x),
            fuel > 0,
            vis2 == inner@.map_values(|s: String| s@),
            j <= parents@.len(),
            items@.map_values(|s: String| s@) == desc_items(g@, parents@.take(j as int), vis2, (fuel - 1) as nat),
        decreases parents@.len() - j,
    {
        let p = parents[j];
        proof {
            assert(g@.nodes[x.0 as int].parents[j as int].0 < g@.len());
        }
        let mut item = desc_id_rec(g, p, &inner, fuel - 1);
        item.append(";");
        let ghost before_items = items@;
        items.push(item);
        proof {
            assert(parents@.take(j + 1).drop_last() =~= parents@.take(j as int));
            assert(parents@.take(j + 1).last() == p);
            assert(items@.map_values(|s: String| s@) =~= before_items.map_values(|s: String| s@).push(
                desc_id(g@, p, vis2, (fuel - 1) as nat) + ";"@,
            ));
        }
        j = j + 1;
    }
    proof {
        assert(parents@.take(parents@.len() as int) =~= parents@);
    }
    let sorted = sort_strings_vec(items);
    let joined = join_strings(&sorted, ";");
    let mut r = String::from_str("(");
    r.append(joined.as_str());
    r.append(")");
    r.append("/");
    r.append(label.as_str());
    proof {
        assert(r@ =~= "("@ + join(sort_strings(desc_items(g@, g@.nodes[x.0 as int].parents, vis2, (fuel - 1) as nat)), ";"@)
            + ")"@ + "/"@ + description(g@.nodes[x.0 as int]));
    }
    r
}

/// The descriptive id of node `x`: its label, preceded by the sorted ids of
/// its parents.
pub fn descriptive_id(g: &LinkedGraph, x: NodeId) -> (r: String)
    requires
        g@.wf(),
        x.0 < g@.len(),
        g@.len() < usize::MAX,
    ensures
        r@ == node_desc_id(g@, x),
{
    let visited: Vec<String> = Vec::new();
    proof {
        assert(visited@.map_values(|s: String| s@) =~= Seq::<Seq<char>>::empty());
    }
    desc_id_rec(g, x, &visited, g.arena_len() + 1)
}

/// Among the nodes of `s`, the first one with the least uid.
pub open spec fn min_uid_node(g: GraphModel, s: Seq<NodeId>) -> NodeId
    decreases s.len(),
{
    if s.len() <= 1 {
        s[0]
    } else {
        let a = min_uid_node(g, s.drop_last());
        if chars_lt(g.nodes[s.last().0 as int].uid, g.nodes[a.0 as int].uid) {
            s.last()
        } else {
            a
        }
    }
}

/// The descriptive ids of the nodes of `s`.
pub open spec fn ids_of(g: GraphModel, s: Seq<NodeId>) -> Seq<Seq<char>> {
    s.map_values(|x: NodeId| node_desc_id(g, x))
}

/// The descriptive id of a graph: `EMPTY` for an empty graph, else the ids of
/// its roots run together, or, without roots, the id of the node with the
/// least uid.
pub open spec fn graph_desc_id(g: GraphModel) -> Seq<char> {
    if g.order.len() == 0 {
        "EMPTY"@
    } else if g.roots().len() > 0 {
        join(ids_of(g, g.roots()), ""@)
    } else {
        node_desc_id(g, min_uid_node(g, g.order))
    }
}

/// The set of the descriptive ids of the roots of `g`.
pub open spec fn root_ids(g: GraphModel) -> Set<Seq<char>> {
    ids_of(g, g.roots()).to_set()
}

/// The roots of a well-formed graph are arena nodes.
pub proof fn lemma_roots_valid(g: GraphModel)
    requires
        g.wf(),
    ensures
        forall|k: int| 0 <= k < g.roots().len() ==> (#[trigger] g.roots()[k]).0 < g.len(),
{
    assert forall|k: int| 0 <= k < g.roots().len() implies (#[trigger] g.roots()[k]).0 < g.len() by {
        let x = g.roots()[k];
        g.order.lemma_filter_pred(g.root_pred(), k);
        assert(g.roots().contains(x));
        crate::dag::linked_graph::lemma_filter_contains_iff(g.order, g.root_pred(), x);
        let j = choose|j: int| 0 <= j < g.order.len() && g.order[j] == x;
    }
}

/// Every node of `g` has a name, and no two nodes share a uid.
pub open spec fn named_distinct(g: GraphModel) -> bool {
    &&& forall|i: int| 0 <= i < g.nodes.len() ==> (#[trigger] g.nodes[i]).name.len() > 0
    &&& forall|i: int, j: int|
        0 <= i < g.nodes.len() && 0 <= j < g.nodes.len() && i != j ==> (#[trigger] g.nodes[i]).uid
            != (#[trigger] g.nodes[j]).uid
}

/// The uids of the nodes `vs`.
spec fn uids_of(g: GraphModel, vs: Seq<NodeId>) -> Seq<Seq<char>> {
    vs.map_values(|v: NodeId| g.nodes[v.0 as int].uid)
}

/// With distinct uids, the uid of `x` is among those of `vs` exactly when `x`
/// is among `vs`.
proof fn lemma_uids_contains(g: GraphModel, vs: Seq<NodeId>, x: NodeId)
    requires
        named_distinct(g),
        x.0 < g.nodes.len(),
        forall|k: int| 0 <= k < vs.len() ==> (#[trigger] vs[k]).0 < g.nodes.len(),
    ensures
        uids_of(g, vs).contains(g.nodes[x.0 as int].uid) == vs.contains(x),
{
    if vs.contains(x) {
        let k = choose|k: int| 0 <= k < vs.len() && vs[k] == x;
        assert(uids_of(g, vs)[k] == g.nodes[x.0 as int].uid);
    }
    if uids_of(g, vs).contains(g.nodes[x.0 as int].uid) {
        let k = choose|k: int| 0 <= k < uids_of(g, vs).len() && uids_of(g, vs)[k] == g.nodes[x.0 as int].uid;
        let v = vs[k];
        assert(g.nodes[v.0 as int].uid == g.nodes[x.0 as int].uid);
        assert(v.0 == x.0);
        assert(vs[k] == x);
    }
}

/// The descriptive id of `x` is the same in a copy with the same structure.
proof fn lemma_copy_desc_id(g: GraphModel, c: GraphModel, x: NodeId, vs: Seq<NodeId>, fuel: nat)
    requires
        g.wf(),
        same_structure(g, c),
        named_distinct(g),
        named_distinct(c),
        x.0 < g.nodes.len(),
        forall|k: int| 0 <= k < vs.len() ==> (#[trigger] vs[k]).0 < g.nodes.len(),
    ensures
        desc_id(g, x, uids_of(g, vs), fuel) == desc_id(c, x, uids_of(c, vs), fuel),
    decreases fuel, 0nat,
{
    lemma_uids_contains(g, vs, x);
    lemma_uids_contains(c, vs, x);
    let n = g.nodes[x.0 as int];
    let m = c.nodes[x.0 as int];
    assert(description(n) == description(m));
    if fuel > 0 && !vs.contains(x) && n.parents.len() > 0 {
        let ws = vs.push(x);
        assert(uids_of(g, vs).push(n.uid) =~= uids_of(g, ws));
        assert(uids_of(c, vs).push(m.uid) =~= uids_of(c, ws));
        assert forall|k: int| 0 <= k < n.parents.len() implies (#[trigger] n.parents[k]).0 < g.nodes.len() by {
            assert(g.nodes[x.0 as int].parents[k] == n.parents[k]);
        }
        lemma_copy_desc_items(g, c, n.parents, ws, (fuel - 1) as nat);
    }
}

/// The descriptive ids of the nodes `ps` are the same in a copy with the same
/// structure.
proof fn lemma_copy_desc_items(g: GraphModel, c: GraphModel, ps: Seq<NodeId>, vs: Seq<NodeId>, fuel: nat)
    requires
        g.wf(),
        same_structure(g, c),
        named_distinct(g),
        named_distinct(c),
        forall|k: int| 0 <= k < ps.len() ==> (#[trigger] ps[k]).0 < g.nodes.len(),
        forall|k: int| 0 <= k < vs.len() ==> (#[trigger] vs[k]).0 < g.nodes.len(),
    ensures
        desc_items(g, ps, uids_of(g, vs), fuel) == desc_items(c, ps, uids_of(c, vs), fuel),
    decreases fuel, ps.len(),
{
    if ps.len() > 0 {
        assert(ps.last() == ps[ps.len() - 1]);
        lemma_copy_desc_items(g, c, ps.drop_last(), vs, fuel);
        lemma_copy_desc_id(g, c, ps.last(), vs, fuel);
    }
}

/// The label of a node with parameters shows them: it is the label the same
/// node has without parameters, then `_` and a rendering that opens with `{`
/// and closes with `}`. So two nodes that differ only in having parameters
/// get different labels, and different descriptive ids.
pub proof fn law_description_shows_params(n: NodeModel)
    requires
        n.params.len() > 0,
    ensures
        ({
            let bare = description(NodeModel { params: Seq::empty(), ..n });
            &&& description(n).len() >= bare.len() + 3
            &&& description(n).take(bare.len() as int) == bare
            &&& description(n)[bare.len() as int] == '_'
            &&& description(n)[bare.len() as int + 1] == '{'
            &&& description(n).last() == '}'
            &&& description(n) != bare
        }),
{
    reveal_strlit("n_");
    reveal_strlit("_");
    reveal_strlit("{");
    reveal_strlit("}");
    let label = if n.name.len() == 0 {
        n.uid
    } else {
        n.name
    };
    let bare = description(NodeModel { params: Seq::empty(), ..n });
    assert(bare == "n_"@ + label);
    let inner = join(Seq::new(n.params.len(), |j: int| n.params[j].0@ + ": "@ + n.params[j].1@), ", "@);
    let pt = params_text(n.params);
    assert(pt == "{"@ + inner + "}"@);
    assert(pt.len() >= 2);
    assert(pt[0] == '{');
    assert(pt.last() == '}') by {
        assert(pt[pt.len() - 1] == "}"@[0]);
    }
    let d = description(n);
    assert(d == bare + "_"@ + pt);
    assert(d.take(bare.len() as int) =~= bare);
    assert(d[bare.len() as int] == '_');
    assert(d[bare.len() as int + 1] == pt[0]);
    assert(d.last() == pt.last());
    assert(d.len() != bare.len());
}

/// A copy of a graph with the same active nodes, names, parameters and
/// parents has the same root descriptive ids, so it compares equal to the
/// graph, provided every node has a name and neither graph repeats a uid.
pub proof fn law_copy_same_root_ids(g: GraphModel, c: GraphModel)
    requires
        g.wf(),
        same_structure(g, c),
        named_distinct(g),
        named_distinct(c),
    ensures
        root_ids(g) == root_ids(c),
{
    assert forall|x: NodeId| g.order.contains(x) implies (g.root_pred())(x) == (c.root_pred())(x) by {
        assert forall|y: NodeId| g.order.contains(y) implies (g.child_pred(x))(y) == (c.child_pred(x))(y) by {
            let k = choose|k: int| 0 <= k < g.order.len() && g.order[k] == y;
            assert(g.nodes[y.0 as int].parents == c.nodes[y.0 as int].parents);
        }
        lemma_filter_ext(g.order, g.child_pred(x), c.child_pred(x));
    }
    lemma_filter_ext(g.order, g.root_pred(), c.root_pred());
    let rs = g.roots();
    assert(c.roots() == rs);
    lemma_roots_valid(g);
    assert forall|k: int| 0 <= k < rs.len() implies ids_of(g, rs)[k] == ids_of(c, rs)[k] by {
        let e: Seq<NodeId> = Seq::empty();
        assert(uids_of(g, e) =~= Seq::<Seq<char>>::empty());
        assert(uids_of(c, e) =~= Seq::<Seq<char>>::empty());
        lemma_copy_desc_id(g, c, rs[k], e, g.len() + 1);
    }
    assert(ids_of(g, rs) =~= ids_of(c, rs));
}

/// The descriptive ids of `nodes`, in order.
fn ids_vec(g: &LinkedGraph, nodes: &Vec<NodeId>) -> (r: Vec<String>)
    requires
        g@.wf(),
        g@.len() < usize::MAX,
        forall|k: int| 0 <= k < nodes@.len() ==> (#[trigger] nodes@[k]).0 < g@.len(),
    ensures
        r@.map_values(|s: String| s@) == ids_of(g@, nodes@),
{
    let mut r: Vec<String> = Vec::new();
    let mut i: usize = 0;
    while i < nodes.len()
        invariant
            g@.wf(),
            g@.len() < usize::MAX,
            forall|k: int| 0 <= k < nodes@.len() ==> (#[trigger] nodes@[k]).0 < g@.len(),
            i <= nodes@.len(),
            r@.map_values(|s: String| s@) == ids_of(g@, nodes@.take(i as int)),
        decreases nodes@.len() - i,
    {
        let id = descriptive_id(g, nodes[i]);
        let ghost before = r@;
        r.push(id);
        proof {
            assert(nodes@.take(i + 1) =~= nodes@.take(i as int).push(nodes@[i as int]));
            assert(ids_of(g@, nodes@.take(i + 1)) =~= ids_of(g@, nodes@.take(i as int)).push(node_desc_id(g@, nodes@[i as int])));
            assert(r@.map_values(|s: String| s@) =~= before.map_values(|s: String| s@).push(r@[i as int]@));
        }
        i = i + 1;
    }
    proof {
        assert(nodes@.take(nodes@.len() as int) =~= nodes@);
    }
    r
}

impl LinkedGraph {
    /// The descriptive id of the graph.
    pub fn descriptive_id(&self) -> (r: String)
        requires
            self@.wf(),
            self@.len() < usize::MAX,
        ensures
            r@ == graph_desc_id(self@),
    {
        if self.length() == 0 {
            return String::from_str("EMPTY");
        }
        let roots = self.root_nodes();
        proof {
            lemma_roots_valid(self@);
        }
        if roots.len() > 0 {
            let ids = ids_vec(self, &roots);
            return join_strings(&ids, "");
        }
        let order = self.nodes();
        let mut best = order[0];
        let mut i: usize = 1;
        proof {
            assert(self@.order[0].0 < self@.len());
            assert(self@.order.take(1) =~= seq![best]);
        }
        while i < order.len()
            invariant
                self@.wf(),
                order@ == self@.order,
                1 <= i <= order@.len(),
                best.0 < self@.len(),
                best == min_uid_node(self@, order@.take(i as int)),
            decreases order@.len() - i,
        {
            let x = order[i];
            proof {
                assert(self@.order[i as int].0 < self@.len());
                assert(order@.take(i + 1).drop_last() =~= order@.take(i as int));
                assert(order@.take(i + 1).last() == x);
            }
            if str_lt(self.uid(x), self.uid(best)) {
                best = x;
            }
            i = i + 1;
        }
        proof {
            assert(order@.take(order@.len() as int) =~= order@);
        }
        descriptive_id(self, best)
    }

    /// Whether both graphs have the same set of root descriptive ids.
    pub fn graphs_equal(&self, other: &LinkedGraph) -> (r: bool)
        requires
            self@.wf(),
            other@.wf(),
            self@.len() < usize::MAX,
            other@.len() < usize::MAX,
        ensures
            r == (root_ids(self@) == root_ids(other@)),
    {
        let roots1 = self.root_nodes();
        let roots2 = other.root_nodes();
        proof {
            lemma_roots_valid(self@);
            lemma_roots_valid(other@);
        }
        let ids1 = ids_vec(self, &roots1);
        let ids2 = ids_vec(other, &roots2);
        let ghost s1 = ids1@.map_values(|s: String| s@);
        let ghost s2 = ids2@.map_values(|s: String| s@);
        let mut i: usize = 0;
        while i < ids1.len()
            invariant
                s1 == ids1@.map_values(|s: String| s@),
                s2 == ids2@.map_values(|s: String| s@),
                s1 == ids_of(self@, self@.roots()),
                s2 == ids_of(other@, other@.roots()),
                i <= ids1@.len(),
                forall|k: int| 0 <= k < i ==> s2.contains(#[trigger] s1[k]),
            decreases ids1@.len() - i,
        {
            if !strings_contain(&ids2, &ids1[i]) {
                proof {
                    assert(s1.to_set().contains(s1[i as int]));
                    assert(!s2.to_set().contains(s1[i as int]));
                }
                return false;
            }
            i = i + 1;
        }
        let mut j: usize = 0;
        while j < ids2.len()
            invariant
                s1 == ids1@.map_values(|s: String| s@),
                s2 == ids2@.map_values(|s: String| s@),
                s1 == ids_of(self@, self@.roots()),
                s2 == ids_of(other@, other@.roots()),
                j <= ids2@.len(),
                forall|k: int| 0 <= k < ids1@.len() ==> s2.contains(#[trigger] s1[k]),
                forall|k: int| 0 <= k < j ==> s1.contains(#[trigger] s2[k]),
            decreases ids2@.len() - j,
        {
            if !strings_contain(&ids1, &ids2[j]) {
                proof {
                    assert(s2.to_set().contains(s2[j as int]));
                    assert(!s1.to_set().contains(s2[j as int]));
                }
                return false;
            }
            j = j + 1;
        }
        proof {
            assert(s1.to_set() =~= s2.to_set()) by {
                assert forall|y: Seq<char>| s1.to_set().contains(y) implies s2.to_set().contains(y) by {
                    let k = choose|k: int| 0 <= k < s1.len() && s1[k] == y;
                }
                assert forall|y: Seq<char>| s2.to_set().contains(y) implies s1.to_set().contains(y) by {
                    let k = choose|k: int| 0 <= k < s2.len() && s2[k] == y;
                }
            }
        }
        true
    }
}

} // verus!
