use vstd::prelude::*;
use crate::dag::linked_graph::{GraphModel, LinkedGraph};
use crate::dag::node::NodeId;

verus! {

/// How a node may be removed from a graph.
#[derive(Clone, Copy, Debug, PartialEq, Eq, Structural)]
pub enum RemoveType {
    WithDirectChildren,
    WithParents,
    NodeRewire,
    NodeOnly,
    Forbidden,
}

/// Decides how nodes may be removed from a graph.
pub trait GraphAdvisor {
    /// The advice for `node` in the graph modelled by `g`.
    spec fn advice(&self, node: NodeId, g: GraphModel) -> RemoveType;

    /// How `node` may be removed from `graph`.
    fn can_be_removed(&self, node: NodeId, graph: &LinkedGraph) -> (r: RemoveType)
        requires
            graph@.wf(),
        ensures
            r == self.advice(node, graph@),
    ;
}

/// The advice of [`DefaultAdvisor`]: nothing may leave a graph of fewer than
/// two nodes; a node without children leaves with its parents; any other node
/// leaves alone and its parents are joined to its children.
pub open spec fn default_removal(g: GraphModel, node: NodeId) -> RemoveType {
    if g.order.len() < 2 {
        RemoveType::Forbidden
    } else if g.children(node).len() == 0 {
        RemoveType::WithParents
    } else {
        RemoveType::NodeRewire
    }
}

/// The advisor used unless another is given.
#[derive(Clone, Copy, Debug, Default)]
pub struct DefaultAdvisor;

impl GraphAdvisor for DefaultAdvisor {
    open spec fn advice(&self, node: NodeId, g: GraphModel) -> RemoveType {
        default_removal(g, node)
    }

    fn can_be_removed(&self, node: NodeId, graph: &LinkedGraph) -> (r: RemoveType) {
        if graph.length() < 2 {
            return RemoveType::Forbidden;
        }
        let children = graph.node_children(node);
        if children.len() == 0 {
            RemoveType::WithParents
        } else {
            RemoveType::NodeRewire
        }
    }
}

} // verus!
