use vstd::prelude::*;
use crate::dag::graph_utils::{components_spec, get_connected_components, graph_has_cycle};
use crate::dag::linked_graph::{GraphModel, LinkedGraph, lemma_children_has_child};
use crate::dag::node::NodeId;

verus! {

/// The message of the cycle rule.
pub open spec fn cycle_message() -> Seq<char> {
    "Invalid graph configuration: Graph has cycles"@
}

/// The message of the isolated-node rule.
pub open spec fn isolated_nodes_message() -> Seq<char> {
    "Invalid graph configuration: Graph has isolated nodes"@
}

/// The message of the self-cycle rule.
pub open spec fn self_cycled_message() -> Seq<char> {
    "Invalid graph configuration: Graph has self-cycled nodes"@
}

/// The message of the connectivity rule for an empty graph.
pub open spec fn null_graph_message() -> Seq<char> {
    "Invalid graph configuration: Graph is null, connectivity not defined"@
}

/// The message of the connectivity rule.
pub open spec fn isolated_components_message() -> Seq<char> {
    "Invalid graph configuration: Graph has isolated components"@
}

impl GraphModel {
    /// `x` is active and touches no edge: it has no parents and no active node
    /// lists it as a parent.
    pub open spec fn is_isolated(self, x: NodeId) -> bool {
        &&& self.is_active(x)
        &&& self.parents(x).len() == 0
        &&& !self.has_child(x)
    }

    /// Some active node lists itself as a parent.
    pub open spec fn has_self_cycle(self) -> bool {
        exists|x: NodeId| self.is_active(x) && #[trigger] self.has_parent(x, x)
    }
}

/// The graph has no cycle.
pub fn has_no_cycle(g: &LinkedGraph) -> (r: Result<(), String>)
    requires
        g@.wf(),
    ensures
        r is Ok <==> g@.acyclic(),
        r is Err ==> r->Err_0@ == cycle_message(),
{
    if graph_has_cycle(g) {
        return Err(String::from_str("Invalid graph configuration: Graph has cycles"));
    }
    Ok(())
}

/// Every node touches an edge, unless the graph holds a single node.
pub fn has_no_isolated_nodes(g: &LinkedGraph) -> (r: Result<(), String>)
    requires
        g@.wf(),
    ensures
        r is Ok <==> (g@.order.len() == 1 || !exists|x: NodeId| #[trigger] g@.is_isolated(x)),
        r is Err ==> r->Err_0@ == isolated_nodes_message(),
{
    if g.length() == 1 {
        return Ok(());
    }
    let order = g.nodes();
    let mut i: usize = 0;
    while i < order.len()
        invariant
            g@.wf(),
            order@ == g@.order,
            i <= order@.len(),
            g@.order.len() != 1,
            forall|k: int| 0 <= k < i ==> !g@.is_isolated(#[trigger] order@[k]),
        decreases order@.len() - i,
    {
        let x = order[i];
        proof {
            assert(g@.order[i as int].0 < g@.len());
            lemma_children_has_child(g@, x);
            assert(g@.is_active(x));
        }
        if g.parents_of(x).len() == 0 && g.node_children(x).len() == 0 {
            proof {
                assert(g@.is_isolated(x));
            }
            return Err(String::from_str("Invalid graph configuration: Graph has isolated nodes"));
        }
        i = i + 1;
    }
    proof {
        assert forall|x: NodeId| !#[trigger] g@.is_isolated(x) by {
            if g@.is_isolated(x) {
                let k = choose|k: int| 0 <= k < order@.len() && order@[k] == x;
                assert(!g@.is_isolated(order@[k]));
            }
        }
    }
    Ok(())
}

/// No node lists itself as a parent.
pub fn has_no_self_cycled_nodes(g: &LinkedGraph) -> (r: Result<(), String>)
    requires
        g@.wf(),
    ensures
        r is Ok <==> !g@.has_self_cycle(),
        r is Err ==> r->Err_0@ == self_cycled_message(),
{
    let order = g.nodes();
    let mut i: usize = 0;
    while i < order.len()
        invariant
            g@.wf(),
            order@ == g@.order,
            i <= order@.len(),
            forall|k: int| 0 <= k < i ==> !g@.has_parent(#[trigger] order@[k], order@[k]),
        decreases order@.len() - i,
    {
        let x = order[i];
        proof {
            assert(g@.order[i as int].0 < g@.len());
        }
        if g.has_parent(x, x) {
            return Err(String::from_str("Invalid graph configuration: Graph has self-cycled nodes"));
        }
        i = i + 1;
    }
    proof {
        assert forall|x: NodeId| !(g@.is_active(x) && #[trigger] g@.has_parent(x, x)) by {
            if g@.is_active(x) {
                let k = choose|k: int| 0 <= k < order@.len() && order@[k] == x;
                assert(!g@.has_parent(order@[k], order@[k]));
            }
        }
    }
    Ok(())
}

/// The graph is not empty and forms a single component, ignoring edge
/// directions.
pub fn has_no_isolated_components(g: &LinkedGraph) -> (r: Result<(), String>)
    requires
        g@.wf(),
    ensures
        r is Ok <==> (g@.order.len() > 0 && components_spec(g@, g@.order).len() <= 1),
        r is Err && g@.order.len() == 0 ==> r->Err_0@ == null_graph_message(),
        r is Err && g@.order.len() > 0 ==> r->Err_0@ == isolated_components_message(),
{
    if g.length() == 0 {
        return Err(String::from_str("Invalid graph configuration: Graph is null, connectivity not defined"));
    }
    let components = get_connected_components(g, None);
    if components.len() > 1 {
        return Err(String::from_str("Invalid graph configuration: Graph has isolated components"));
    }
    Ok(())
}

/// The graph passes every default rule: no cycle, no isolated node, no
/// self-cycled node and a single component.
pub open spec fn passes_default_rules(g: GraphModel) -> bool {
    &&& g.acyclic()
    &&& g.order.len() == 1 || !exists|x: NodeId| #[trigger] g.is_isolated(x)
    &&& !g.has_self_cycle()
    &&& g.order.len() > 0
    &&& components_spec(g, g.order).len() <= 1
}

/// Whether the graph passes every default rule: no cycle, no isolated node,
/// no self-cycled node and a single component.
pub fn default_graph_verifier(g: &LinkedGraph) -> (r: bool)
    requires
        g@.wf(),
    ensures
        r == passes_default_rules(g@),
{
    has_no_cycle(g).is_ok() && has_no_isolated_nodes(g).is_ok() && has_no_self_cycled_nodes(g).is_ok()
        && has_no_isolated_components(g).is_ok()
}

} // verus!
