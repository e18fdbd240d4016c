use vstd::prelude::*;

verus! {

/// Stable handle to a node inside a [`LinkedGraph`](crate::dag::linked_graph::LinkedGraph) arena.
///
/// The id is an index into the graph's backing vector. It stays valid for the
/// lifetime of the graph even after the node leaves the active node set.
#[derive(Clone, Copy, PartialEq, Eq, Structural, Hash, Debug, PartialOrd, Ord)]
pub struct NodeId(pub usize);

/// Defines how edges between a removed node's parents and children are treated.
#[derive(Clone, Copy, PartialEq, Eq, Structural, Debug)]
pub enum ReconnectType {
    /// Do not reconnect predecessors.
    NoReconnect,
    /// Reconnect predecessors only if the removed node had a single child.
    Single,
    /// Reconnect all predecessors to all successors.
    All,
}

impl Default for ReconnectType {
    fn default() -> (r: Self)
        ensures
            r == ReconnectType::Single,
    {
        ReconnectType::Single
    }
}

/// Raised when an operation requires an acyclic graph but a cycle is present.
#[derive(Clone, Copy, PartialEq, Eq, Structural, Debug)]
pub struct CycleError;

impl CycleError {
    /// The message shown for this error.
    pub fn message(&self) -> (r: String)
        ensures
            r@ == "Can not build ordered node hierarchy: graph has cycle"@,
    {
        String::from_str("Can not build ordered node hierarchy: graph has cycle")
    }
}

/// Content stored in a node: an operation `name` plus its parameters.
///
/// Each parameter is held as its key and its value, both in the form that
/// `{:?}` renders them (a key `k` with the JSON value `true` is held as
/// `("\"k\"", "Bool(true)")`), sorted by key as a `BTreeMap` keeps them.
#[derive(Clone, Debug, PartialEq, Eq, Default)]
pub struct NodeContent {
    pub name: String,
    pub params: Vec<(String, String)>,
}

/// A node of the arena: its unique id, content and parents.
#[derive(Clone, Debug)]
pub struct GraphNode {
    /// Globally unique identifier of the node.
    pub uid: String,
    /// Operation name and parameters held by the node.
    pub content: NodeContent,
    /// Parent nodes.
    pub parents: Vec<NodeId>,
}

/// Mathematical model of a node.
#[verifier::ext_equal]
pub struct NodeModel {
    pub uid: Seq<char>,
    pub name: Seq<char>,
    pub params: Seq<(String, String)>,
    pub parents: Seq<NodeId>,
}

impl NodeContent {
    /// Content with the given name and no parameters.
    pub fn new(name: String) -> (r: Self)
        ensures
            r.name@ == name@,
            r.params@.len() == 0,
    {
        NodeContent { name, params: Vec::new() }
    }

    /// Content with the given name and parameters.
    pub fn with_params(name: String, params: Vec<(String, String)>) -> (r: Self)
        ensures
            r.name@ == name@,
            r.params@ == params@,
    {
        NodeContent { name, params }
    }

    /// A copy of this content.
    pub fn duplicate(&self) -> (r: Self)
        ensures
            r.name@ == self.name@,
            r.params@ == self.params@,
    {
        let mut params: Vec<(String, String)> = Vec::new();
        let mut i: usize = 0;
        while i < self.params.len()
            invariant
                i <= self.params@.len(),
                params@ == self.params@.take(i as int),
            decreases self.params@.len() - i,
        {
            let k = self.params[i].0.clone();
            let v = self.params[i].1.clone();
            params.push((k, v));
            proof {
                assert(self.params@.take(i + 1) =~= self.params@.take(i as int).push(self.params@[i as int]));
            }
            i = i + 1;
        }
        proof {
            assert(self.params@.take(self.params@.len() as int) =~= self.params@);
        }
        NodeContent { name: self.name.clone(), params }
    }
}

impl GraphNode {
    /// The model of this node.
    pub open spec fn model(self) -> NodeModel {
        NodeModel {
            uid: self.uid@,
            name: self.content.name@,
            params: self.content.params@,
            parents: self.parents@,
        }
    }
}

} // verus!
