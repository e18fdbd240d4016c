use vstd::prelude::*;
use crate::dag::graph_node::graph_desc_id;
use crate::dag::linked_graph::LinkedGraph;
use crate::optimisers::genetic::rng::GeneticRng;

verus! {

/// The positions among the first `k` ids whose id no earlier position holds.
pub open spec fn first_indices(ids: Seq<Seq<char>>, k: int) -> Seq<usize>
    decreases k,
{
    if k <= 0 {
        Seq::empty()
    } else {
        let prev = first_indices(ids, k - 1);
        if ids.take(k - 1).contains(ids[k - 1]) {
            prev
        } else {
            prev.push((k - 1) as usize)
        }
    }
}

/// The descriptive ids of the graphs.
pub open spec fn graph_ids(graphs: Seq<LinkedGraph>) -> Seq<Seq<char>> {
    graphs.map_values(|g: LinkedGraph| graph_desc_id(g@))
}

/// The positions of the graphs kept when a population is made structurally
/// unique: the first graph of each descriptive id.
pub fn unique_structure_indices(graphs: &Vec<LinkedGraph>) -> (r: Vec<usize>)
    requires
        forall|k: int| 0 <= k < graphs@.len() ==> (#[trigger] graphs@[k])@.wf() && graphs@[k]@.len() < usize::MAX,
    ensures
        r@ == first_indices(graph_ids(graphs@), graphs@.len() as int),
{
    let ghost ids = graph_ids(graphs@);
    let mut seen: Vec<String> = Vec::new();
    let mut r: Vec<usize> = Vec::new();
    let mut k: usize = 0;
    while k < graphs.len()
        invariant
            forall|t: int| 0 <= t < graphs@.len() ==> (#[trigger] graphs@[t])@.wf() && graphs@[t]@.len() < usize::MAX,
            ids == graph_ids(graphs@),
            k <= graphs@.len(),
            seen@.map_values(|s: String| s@) == ids.take(k as int),
            r@ == first_indices(ids, k as int),
        decreases graphs@.len() - k,
    {
        let id = graphs[k].descriptive_id();
        let ghost before = seen@.map_values(|s: String| s@);
        let mut found = false;
        let mut i: usize = 0;
        while i < seen.len()
            invariant
                i <= seen@.len(),
                found == seen@.map_values(|s: String| s@).take(i as int).contains(id@),
            decreases seen@.len() - i,
        {
            proof {
                let m = seen@.map_values(|s: String| s@);
                assert(m.take(i + 1) =~= m.take(i as int).push(m[i as int]));
                vstd::seq_lib::lemma_seq_contains_after_push(m.take(i as int), m[i as int], id@);
            }
            if seen[i] == id {
                found = true;
            }
            i = i + 1;
        }
        proof {
            let m = seen@.map_values(|s: String| s@);
            assert(m.take(m.len() as int) =~= m);
            assert(ids[k as int] == id@);
        }
        if !found {
            r.push(k);
        }
        seen.push(id);
        proof {
            assert(ids.take(k + 1) =~= ids.take(k as int).push(ids[k as int]));
            assert(seen@.map_values(|s: String| s@) =~= before.push(ids[k as int]));
        }
        k = k + 1;
    }
    r
}

/// Where the copies that fill a population of `len` graphs up to `target`
/// are taken from: none when the population is empty, else one random
/// position per missing graph, the `k`-th among the `len + k` graphs present
/// by then (copies included).
pub fn extension_picks(len: usize, target: usize, rng: &mut GeneticRng) -> (r: Vec<usize>)
    ensures
        len == 0 ==> r@.len() == 0,
        len > 0 ==> r@.len() == (if target > len {
            target - len
        } else {
            0
        }),
        forall|k: int| 0 <= k < r@.len() ==> #[trigger] r@[k] < len + k,
{
    let mut r: Vec<usize> = Vec::new();
    if len == 0 {
        return r;
    }
    let n = if target > len { target - len } else { 0 };
    let mut k: usize = 0;
    while k < n
        invariant
            len > 0,
            len + n == target || n == 0,
            k <= n,
            r@.len() == k,
            forall|t: int| 0 <= t < r@.len() ==> #[trigger] r@[t] < len + t,
        decreases n - k,
    {
        let idx = rng.gen_range(0, len + k);
        r.push(idx);
        k = k + 1;
    }
    r
}

} // verus!
