//! Building a graph from stored node records: a uid, a content and the uids
//! of the parents.
use vstd::prelude::*;
use crate::dag::linked_graph::{adds_result, GraphModel, LinkedGraph};
use crate::dag::node::{NodeContent, NodeId, NodeModel};

verus! {

/// A stored node: its uid, its content and the uids of its parents.
pub type NodeRecord = (String, NodeContent, Vec<String>);

/// The non-empty uids of `rs`, each once, in the order they first come.
pub open spec fn first_uids(rs: Seq<NodeRecord>) -> Seq<Seq<char>>
    decreases rs.len(),
{
    if rs.len() == 0 {
        Seq::empty()
    } else {
        let u = first_uids(rs.drop_last());
        let x = rs.last().0@;
        if x.len() == 0 || u.contains(x) {
            u
        } else {
            u.push(x)
        }
    }
}

/// The position of the last record of `rs` with the uid `u`, or `-1`.
pub open spec fn last_with(rs: Seq<NodeRecord>, u: Seq<char>) -> int
    decreases rs.len(),
{
    if rs.len() == 0 {
        -1
    } else if rs.last().0@ == u {
        rs.len() - 1
    } else {
        last_with(rs.drop_last(), u)
    }
}

/// The ids, as positions among `us`, of the uids listed in `ps`; uids not in
/// `us` are left out.
pub open spec fn resolve(ps: Seq<String>, us: Seq<Seq<char>>) -> Seq<NodeId>
    decreases ps.len(),
{
    if ps.len() == 0 {
        Seq::empty()
    } else {
        let r = resolve(ps.drop_last(), us);
        if us.contains(ps.last()@) {
            r.push(NodeId(us.index_of(ps.last()@) as usize))
        } else {
            r
        }
    }
}

/// `nodes` holds one node per uid of `rs`, in the order the uids first come,
/// each with the content of the last record of its uid and the parents that
/// record lists, those with a known uid.
pub open spec fn records_arena(rs: Seq<NodeRecord>, nodes: Seq<NodeModel>) -> bool {
    let us = first_uids(rs);
    &&& nodes.len() == us.len()
    &&& forall|i: int|
        0 <= i < us.len() ==> {
            let rec = rs[last_with(rs, us[i])];
            &&& (#[trigger] nodes[i]).uid == us[i]
            &&& nodes[i].name == rec.1.name@
            &&& nodes[i].params == rec.1.params@
            &&& nodes[i].parents == resolve(rec.2@, us)
        }
}

/// The ids `0..n`, in order.
pub open spec fn first_ids(n: nat) -> Seq<NodeId> {
    Seq::new(n, |i: int| NodeId(i as usize))
}

/// The uids of `rs` come each once and are not empty.
proof fn lemma_first_uids(rs: Seq<NodeRecord>)
    ensures
        first_uids(rs).no_duplicates(),
        forall|k: int| 0 <= k < first_uids(rs).len() ==> (#[trigger] first_uids(rs)[k]).len() > 0,
        forall|k: int| 0 <= k < first_uids(rs).len() ==> 0 <= #[trigger] last_with(rs, first_uids(rs)[k]) < rs.len(),
        first_uids(rs).len() <= rs.len(),
    decreases rs.len(),
{
    if rs.len() > 0 {
        let d = rs.drop_last();
        lemma_first_uids(d);
        let u = first_uids(d);
        assert forall|k: int| 0 <= k < first_uids(rs).len() implies 0 <= #[trigger] last_with(rs, first_uids(rs)[k]) < rs.len() by {
            if k < u.len() {
                assert(first_uids(rs)[k] == u[k]);
                if rs.last().0@ != u[k] {
                    assert(last_with(rs, u[k]) == last_with(d, u[k]));
                }
            }
        }
    }
}

/// Builds a graph from `records`: one node per non-empty uid, in the order
/// the uids first come, with the content and parents of the last record of
/// that uid (parents with an unknown uid are dropped); then each node is
/// added to the active set in that order, with its ancestors.
pub fn graph_from_records(records: Vec<NodeRecord>) -> (r: LinkedGraph)
    ensures
        r@.wf(),
        records_arena(records@, r@.nodes),
        adds_result(GraphModel { nodes: r@.nodes, order: Seq::empty() }, first_ids(r@.nodes.len()), r@),
{
    let ghost rs = records@;
    let mut uids: Vec<String> = Vec::new();
    let mut lasts: Vec<usize> = Vec::new();
    let mut i: usize = 0;
    while i < records.len()
        invariant
            rs == records@,
            i <= rs.len(),
            uids@.map_values(|s: String| s@) == first_uids(rs.take(i as int)),
            lasts@.len() == uids@.len(),
            forall|j: int| 0 <= j < lasts@.len() ==> #[trigger] lasts@[j] == last_with(rs.take(i as int), uids@[j]@),
        decreases rs.len() - i,
    {
        let ghost ti = rs.take(i as int);
        let ghost ti1 = rs.take(i + 1);
        proof {
            assert(ti1.drop_last() =~= ti);
            assert(ti1.last() == rs[i as int]);
        }
        let uid = &records[i].0;
        if uid.as_str().unicode_len() > 0 {
            let mut j: usize = 0;
            let mut found = false;
            while j < uids.len() && !found
                invariant
                    j <= uids@.len(),
                    found ==> j < uids@.len() && uids@[j as int]@ == uid@,
                    !found ==> forall|t: int| 0 <= t < j ==> uids@[t]@ != uid@,
                decreases uids@.len() - j, if found { 0int } else { 1int },
            {
                if uids[j] == *uid {
                    found = true;
                } else {
                    j = j + 1;
                }
            }
            if found {
                lasts.set(j, i);
                proof {
                    let m = uids@.map_values(|s: String| s@);
                    assert(m[j as int] == uid@);
                    assert(first_uids(ti).contains(uid@));
                    assert(first_uids(ti1) == first_uids(ti));
                    assert forall|t: int| 0 <= t < lasts@.len() implies #[trigger] lasts@[t] == last_with(ti1, uids@[t]@) by {
                        assert(m[t] == uids@[t]@);
                        if t != j {
                            lemma_first_uids(ti);
                            assert(m[t] != m[j as int]);
                        }
                    }
                }
            } else {
                proof {
                    let m = uids@.map_values(|s: String| s@);
                    assert(!first_uids(ti).contains(uid@)) by {
                        if first_uids(ti).contains(uid@) {
                            let t = choose|t: int| 0 <= t < m.len() && m[t] == uid@;
                            assert(uids@[t]@ == uid@);
                        }
                    }
                }
                uids.push(uid.clone());
                lasts.push(i);
                proof {
                    assert(uids@.map_values(|s: String| s@) =~= first_uids(ti).push(uid@));
                    assert forall|t: int| 0 <= t < lasts@.len() implies #[trigger] lasts@[t] == last_with(ti1, uids@[t]@) by {
                        if t < lasts@.len() - 1 {
                            assert(uids@[t]@ == first_uids(ti)[t]);
                            assert(first_uids(ti)[t] != uid@);
                        }
                    }
                }
            }
        } else {
            proof {
                assert(first_uids(ti1) == first_uids(ti));
                assert forall|t: int| 0 <= t < lasts@.len() implies #[trigger] lasts@[t] == last_with(ti1, uids@[t]@) by {
                    lemma_first_uids(ti);
                    let m = uids@.map_values(|s: String| s@);
                    assert(m[t] == uids@[t]@);
                    assert(m[t].len() > 0);
                }
            }
        }
        i = i + 1;
    }
    let ghost us = first_uids(rs);
    proof {
        assert(rs.take(rs.len() as int) =~= rs);
        lemma_first_uids(rs);
    }
    let mut g = LinkedGraph::new();
    let mut j: usize = 0;
    while j < uids.len()
        invariant
            rs == records@,
            us == first_uids(rs),
            uids@.map_values(|s: String| s@) == us,
            lasts@.len() == uids@.len(),
            forall|t: int| 0 <= t < lasts@.len() ==> #[trigger] lasts@[t] == last_with(rs, uids@[t]@),
            forall|k: int| 0 <= k < us.len() ==> 0 <= #[trigger] last_with(rs, us[k]) < rs.len(),
            j <= uids@.len(),
            g@.wf(),
            g@.order.len() == 0,
            g@.nodes.len() == j,
            forall|k: int|
                0 <= k < j ==> {
                    &&& (#[trigger] g@.nodes[k]).uid == us[k]
                    &&& g@.nodes[k].name == rs[last_with(rs, us[k])].1.name@
                    &&& g@.nodes[k].params == rs[last_with(rs, us[k])].1.params@
                    &&& g@.nodes[k].parents.len() == 0
                },
        decreases uids@.len() - j,
    {
        proof {
            assert(uids@[j as int]@ == us[j as int]);
        }
        let content = records[lasts[j]].1.duplicate();
        let no_parents: Vec<NodeId> = Vec::new();
        let ghost before = g@;
        let id = g.add_detached(content, no_parents.as_slice());
        g.set_uid(id, uids[j].clone());
        proof {
            crate::dag::linked_graph::lemma_dedup(Seq::<NodeId>::empty());
            assert forall|k: int| 0 <= k < j + 1 implies {
                &&& (#[trigger] g@.nodes[k]).uid == us[k]
                &&& g@.nodes[k].name == rs[last_with(rs, us[k])].1.name@
                &&& g@.nodes[k].params == rs[last_with(rs, us[k])].1.params@
                &&& g@.nodes[k].parents.len() == 0
            } by {
                if k < j {
                    assert(g@.nodes[k] == before.nodes[k]) by {
                        assert(before.nodes.len() == j);
                    }
                }
            }
        }
        j = j + 1;
    }
    let mut j: usize = 0;
    while j < uids.len()
        invariant
            rs == records@,
            us == first_uids(rs),
            us.no_duplicates(),
            uids@.map_values(|s: String| s@) == us,
            lasts@.len() == uids@.len(),
            forall|t: int| 0 <= t < lasts@.len() ==> #[trigger] lasts@[t] == last_with(rs, uids@[t]@),
            forall|k: int| 0 <= k < us.len() ==> 0 <= #[trigger] last_with(rs, us[k]) < rs.len(),
            j <= uids@.len(),
            g@.wf(),
            g@.order.len() == 0,
            g@.nodes.len() == uids@.len(),
            forall|k: int|
                0 <= k < uids@.len() ==> {
                    &&& (#[trigger] g@.nodes[k]).uid == us[k]
                    &&& g@.nodes[k].name == rs[last_with(rs, us[k])].1.name@
                    &&& g@.nodes[k].params == rs[last_with(rs, us[k])].1.params@
                },
            forall|k: int| 0 <= k < j ==> (#[trigger] g@.nodes[k]).parents == resolve(rs[last_with(rs, us[k])].2@, us),
        decreases uids@.len() - j,
    {
        proof {
            assert(uids@[j as int]@ == us[j as int]);
        }
        let ps = &records[lasts[j]].2;
        let mut ids: Vec<NodeId> = Vec::new();
        let mut q: usize = 0;
        while q < ps.len()
            invariant
                us.no_duplicates(),
                uids@.map_values(|s: String| s@) == us,
                q <= ps@.len(),
                ids@ == resolve(ps@.take(q as int), us),
                forall|t: int| 0 <= t < ids@.len() ==> (#[trigger] ids@[t]).0 < us.len(),
            decreases ps@.len() - q,
        {
            let mut k: usize = 0;
            let mut found = false;
            while k < uids.len() && !found
                invariant
                    q < ps@.len(),
                    k <= uids@.len(),
                    found ==> k < uids@.len() && uids@[k as int]@ == ps@[q as int]@,
                    !found ==> forall|t: int| 0 <= t < k ==> uids@[t]@ != ps@[q as int]@,
                decreases uids@.len() - k, if found { 0int } else { 1int },
            {
                if uids[k] == ps[q] {
                    found = true;
                } else {
                    k = k + 1;
                }
            }
            proof {
                let t1 = ps@.take(q + 1);
                assert(t1.drop_last() =~= ps@.take(q as int));
                assert(t1.last() == ps@[q as int]);
                let m = uids@.map_values(|s: String| s@);
                if found {
                    assert(m[k as int] == ps@[q as int]@);
                    assert(us.contains(ps@[q as int]@));
                    let i = us.index_of(ps@[q as int]@);
                    assert(us[i] == ps@[q as int]@);
                    assert(i == k);
                } else {
                    assert(!us.contains(ps@[q as int]@)) by {
                        if us.contains(ps@[q as int]@) {
                            let t = choose|t: int| 0 <= t < m.len() && m[t] == ps@[q as int]@;
                            assert(uids@[t]@ == ps@[q as int]@);
                        }
                    }
                }
            }
            if found {
                ids.push(NodeId(k));
            }
            q = q + 1;
        }
        proof {
            assert(ps@.take(ps@.len() as int) =~= ps@);
        }
        let ghost before = g@;
        g.set_parents(NodeId(j), ids);
        proof {
            assert forall|k: int| 0 <= k < j + 1 implies (#[trigger] g@.nodes[k]).parents == resolve(
                rs[last_with(rs, us[k])].2@,
                us,
            ) by {
                if k < j {
                    assert(g@.nodes[k] == before.nodes[k]);
                }
            }
            assert forall|k: int| 0 <= k < uids@.len() implies {
                &&& (#[trigger] g@.nodes[k]).uid == us[k]
                &&& g@.nodes[k].name == rs[last_with(rs, us[k])].1.name@
                &&& g@.nodes[k].params == rs[last_with(rs, us[k])].1.params@
            } by {
                assert(before.nodes[k].uid == us[k]);
            }
        }
        j = j + 1;
    }
    let ghost g0 = g@;
    let ghost n = g0.nodes.len();
    let ghost base = GraphModel { nodes: g0.nodes, order: Seq::empty() };
    proof {
        assert(g0.order =~= Seq::<NodeId>::empty());
        assert(first_ids(n).take(0) =~= Seq::<NodeId>::empty());
        assert(records_arena(rs, g0.nodes));
    }
    let mut j: usize = 0;
    while j < uids.len()
        invariant
            g@.wf(),
            g@.nodes == g0.nodes,
            n == g0.nodes.len(),
            n == uids@.len(),
            base == (GraphModel { nodes: g0.nodes, order: Seq::empty() }),
            j <= n,
            adds_result(base, first_ids(n).take(j as int), g@),
        decreases uids@.len() - j,
    {
        let ghost before = g@;
        g.add_node(NodeId(j));
        proof {
            let ids = first_ids(n).take(j + 1);
            assert(ids.drop_last() =~= first_ids(n).take(j as int));
            assert(ids.last() == NodeId(j));
            assert(before.add_node_result(NodeId(j), g@));
            assert(adds_result(base, ids, g@));
        }
        j = j + 1;
    }
    proof {
        assert(first_ids(n).take(n as int) =~= first_ids(n));
    }
    g
}

} // verus!
