use vstd::prelude::*;
use crate::dag::linked_graph::LinkedGraph;
use crate::dag::node::{NodeContent, NodeId};
use crate::optimisers::genetic::operators::base_mutations::MutationTypesEnum;
use crate::optimisers::genetic::operators::crossover::CrossoverTypesEnum;

verus! {

/// Limits that every graph of the search respects.
#[derive(Clone, Debug)]
pub struct GraphRequirements {
    pub max_depth: usize,
    pub min_arity: usize,
    pub max_arity: usize,
    /// Metadata attached to each individual, as JSON text.
    pub static_individual_metadata: Option<String>,
}

impl Default for GraphRequirements {
    fn default() -> (r: Self)
        ensures
            r.max_depth == 5,
            r.min_arity == 1,
            r.max_arity == 4,
            r.static_individual_metadata is None,
    {
        GraphRequirements { max_depth: 5, min_arity: 1, max_arity: 4, static_individual_metadata: None }
    }
}

/// The built-in selection schemes a run may use.
#[derive(Clone, Copy, Debug, PartialEq, Eq, Structural)]
pub enum SelectionType {
    Tournament,
    Spea2,
}

/// A crossover a run may use.
#[derive(Clone, Copy, Debug, PartialEq, Eq, Structural)]
pub enum CrossoverType {
    Enum(CrossoverTypesEnum),
}

/// A mutation a run may use.
#[derive(Clone, Copy, Debug, PartialEq, Eq, Structural)]
pub enum MutationType {
    Enum(MutationTypesEnum),
}

/// Hands out node contents for new and replaced nodes, cycling through the
/// available operation names.
#[derive(Clone, Debug)]
pub struct OptNodeFactory {
    available: Vec<String>,
    counter: usize,
}

/// Model of an [`OptNodeFactory`]: the available names and the number of
/// nodes handed out so far (wrapping around).
pub struct FactoryModel {
    pub available: Seq<Seq<char>>,
    pub counter: nat,
}

impl View for OptNodeFactory {
    type V = FactoryModel;

    closed spec fn view(&self) -> FactoryModel {
        FactoryModel { available: self.available@.map_values(|s: String| s@), counter: self.counter as nat }
    }
}

/// The names other than `current`, in their order.
pub open spec fn alternatives(names: Seq<Seq<char>>, current: Option<Seq<char>>) -> Seq<Seq<char>> {
    match current {
        Some(c) => names.filter(|n: Seq<char>| n != c),
        None => names,
    }
}

/// The counter after one more node was handed out.
pub open spec fn next_counter(c: nat) -> nat {
    if c == usize::MAX {
        0
    } else {
        c + 1
    }
}

/// What [`OptNodeFactory::exchange_name`] does from `f`: the content it hands
/// out, if any, and the factory after it.
pub open spec fn exchanged(f: FactoryModel, current: Option<Seq<char>>, r: Option<NodeContent>, g: FactoryModel) -> bool {
    let alts = alternatives(f.available, current);
    &&& g.available == f.available
    &&& if alts.len() == 0 {
        r is None && g.counter == f.counter
    } else {
        &&& r is Some
        &&& r->0.name@ == alts[(f.counter % alts.len()) as int]
        &&& r->0.params@.len() == 0
        &&& g.counter == next_counter(f.counter)
    }
}

impl OptNodeFactory {
    /// A factory over the given operation names.
    pub fn new(available: Vec<String>) -> (r: Self)
        ensures
            r@.available == available@.map_values(|s: String| s@),
            r@.counter == 0,
    {
        OptNodeFactory { available, counter: 0 }
    }

    /// All operation names the factory may hand out.
    pub fn get_all_available_operations(&self) -> (r: Vec<String>)
        ensures
            r@.map_values(|s: String| s@) == self@.available,
    {
        let r = self.available.clone();
        proof {
            assert(r@.map_values(|s: String| s@) =~= self.available@.map_values(|s: String| s@)) by {
                assert forall|i: int| 0 <= i < r@.len() implies r@[i]@ == self.available@[i]@ by {
                    assert(cloned::<String>(self.available@[i], r@[i]));
                }
            }
        }
        r
    }

    /// The next name other than `current`, as the content of a new node.
    pub fn exchange_name(&mut self, current: Option<&String>) -> (r: Option<NodeContent>)
        ensures
            exchanged(
                old(self)@,
                match current {
                    Some(c) => Some(c@),
                    None => None,
                },
                r,
                final(self)@,
            ),
    {
        let ghost cur: Option<Seq<char>> = match current {
            Some(c) => Some(c@),
            None => None,
        };
        let ghost names = self.available@.map_values(|s: String| s@);
        let mut alts: Vec<&String> = Vec::new();
        let mut i: usize = 0;
        while i < self.available.len()
            invariant
                i <= self.available@.len(),
                names == self.available@.map_values(|s: String| s@),
                cur == match current {
                    Some(c) => Some(c@),
                    None => None,
                },
                alts@.map_values(|s: &String| s@) == alternatives(names.take(i as int), cur),
            decreases self.available@.len() - i,
        {
            let name = &self.available[i];
            let keep = match current {
                Some(c) => !(*name == *c),
                None => true,
            };
            let ghost before = alts@;
            if keep {
                alts.push(name);
            }
            proof {
                assert(names[i as int] == name@);
                assert(names.take(i + 1) =~= names.take(i as int).push(name@));
                if keep {
                    assert(alts@.map_values(|s: &String| s@) =~= before.map_values(|s: &String| s@).push(name@));
                } else {
                    assert(alts@ == before);
                }
                match cur {
                    Some(c) => {
                        names.take(i as int).lemma_filter_push(name@, |n: Seq<char>| n != c);
                        assert(keep == (name@ != c));
                    },
                    None => {
                        assert(keep);
                    },
                }
            }
            i = i + 1;
        }
        proof {
            assert(names.take(self.available@.len() as int) =~= names);
        }
        if alts.len() == 0 {
            return None;
        }
        let idx = self.counter % alts.len();
        self.counter = if self.counter == usize::MAX { 0 } else { self.counter + 1 };
        let name = alts[idx].clone();
        proof {
            assert(alts@.map_values(|s: &String| s@)[idx as int] == alts@[idx as int]@);
        }
        Some(NodeContent::new(name))
    }

    /// The content of a new node.
    pub fn get_node(&mut self, is_primary: bool) -> (r: Option<NodeContent>)
        ensures
            exchanged(old(self)@, None, r, final(self)@),
    {
        self.exchange_name(None)
    }

    /// The content of a new parent for `child`.
    pub fn get_parent_node(&mut self, child: NodeId, is_primary: bool) -> (r: Option<NodeContent>)
        ensures
            exchanged(old(self)@, None, r, final(self)@),
    {
        self.get_node(is_primary)
    }

    /// The content of a node to put in place of `node`, under another name.
    pub fn exchange_node(&mut self, graph: &LinkedGraph, node: NodeId) -> (r: Option<NodeContent>)
        requires
            node.0 < graph@.len(),
        ensures
            exchanged(old(self)@, Some(graph@.nodes[node.0 as int].name), r, final(self)@),
    {
        let name = graph.name(node);
        self.exchange_name(Some(name))
    }
}

/// A node put in place of another never takes its name: the factory hands
/// out only names other than the current one.
pub proof fn law_exchange_changes_name(f: FactoryModel, current: Seq<char>, r: Option<NodeContent>, g: FactoryModel)
    requires
        exchanged(f, Some(current), r, g),
        r is Some,
    ensures
        r->0.name@ != current,
{
    let alts = alternatives(f.available, Some(current));
    let k = (f.counter % alts.len()) as int;
    f.available.lemma_filter_pred(|n: Seq<char>| n != current, k);
}

} // verus!
