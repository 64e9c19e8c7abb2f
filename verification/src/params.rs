//! Node parameters: a configuration value is either a literal or a named link
//! to another node's output. Links are resolved against the full node set at
//! graph-build time; per frame a resolved link is a live lookup of the target
//! node's current output, never a placeholder default.

use vstd::prelude::*;

verus! {

/// A parameter to a node: either a static value or the name of another node
/// whose output supplies the value.
#[derive(Debug, Clone)]
pub enum NodeParameter<T> {
    NodeConnection(String),
    Static(T),
}

/// The link name of a parameter, if it is a connection.
pub open spec fn link_of<T>(p: NodeParameter<T>) -> Option<Seq<char>> {
    match p {
        NodeParameter::NodeConnection(n) => Some(n@),
        NodeParameter::Static(_) => None,
    }
}

impl<T> NodeParameter<T> {
    /// The name of the linked node, if this parameter is a connection.
    pub fn connection_name(&self) -> (r: Option<&String>)
        ensures
            match self {
                NodeParameter::NodeConnection(n) => r == Some(n),
                NodeParameter::Static(_) => r is None,
            },
    {
        match self {
            NodeParameter::NodeConnection(n) => Some(n),
            NodeParameter::Static(_) => None,
        }
    }
}

impl<T: core::default::Default + Copy> NodeParameter<T> {
    /// The inner value of a static parameter.
    ///
    /// A connection has no value of its own: a link always resolves to the
    /// live output of its target, never to a substituted type default, so
    /// this accessor is restricted to static parameters. Per-frame link
    /// resolution goes through `ResolvedParameter::resolve`.
    pub fn or_default(&self) -> (r: T)
        requires
            self matches NodeParameter::Static(_),
        ensures
            self matches NodeParameter::Static(v) ==> r == v,
    {
        match *self {
            NodeParameter::Static(v) => v,
            NodeParameter::NodeConnection(_) => T::default(),
        }
    }
}

impl<T: core::default::Default> core::default::Default for NodeParameter<T> {
    fn default() -> (r: NodeParameter<T>)
        ensures
            r matches NodeParameter::Static(v) && call_ensures(T::default, (), v),
    {
        NodeParameter::Static(T::default())
    }
}

/// A parameter after name resolution: a literal, or an index into the per-node
/// output table of the graph it was resolved against.
#[derive(Debug, Clone)]
pub enum ResolvedParameter<T> {
    Static(T),
    Link(usize),
}

impl<T: Copy> ResolvedParameter<T> {
    /// Resolve against the current per-node outputs: a static parameter is its
    /// literal, and a link is the live entry of its target node.
    pub fn resolve(&self, outputs: &Vec<T>) -> (r: T)
        requires
            self matches ResolvedParameter::Link(i) ==> i < outputs@.len(),
        ensures
            self matches ResolvedParameter::Static(v) ==> r == v,
            self matches ResolvedParameter::Link(i) ==> r == outputs@[i as int],
    {
        match *self {
            ResolvedParameter::Static(v) => v,
            ResolvedParameter::Link(i) => outputs[i],
        }
    }
}

} // verus!
