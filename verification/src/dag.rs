//! A static DAG of BML nodes: a graph and its root. Nodes are added while
//! the graph is built (through the hash-consing registry); the DAG itself
//! is read-only.
use crate::ast::{Node, NodeId};
use crate::soa::NodeSoA;
use vstd::prelude::*;

verus! {

/// A graph with its root node.
#[derive(Debug, Clone)]
pub struct Dag {
    /// The nodes.
    pub soa: NodeSoA,
    /// The root node.
    pub root: NodeId,
}

impl Dag {
    /// The DAG of `soa` rooted at `root`.
    pub fn new(soa: NodeSoA, root: NodeId) -> (d: Self)
        ensures
            d.soa == soa,
            d.root == root,
    {
        Dag { soa, root }
    }

    /// Number of nodes.
    pub fn len(&self) -> (n: usize)
        ensures
            n == self.soa.size(),
    {
        self.soa.len()
    }

    /// `true` iff the DAG has no node.
    pub fn is_empty(&self) -> (b: bool)
        ensures
            b == (self.soa.size() == 0),
    {
        self.soa.is_empty()
    }

    /// The node with identifier `id`.
    pub fn get(&self, id: NodeId) -> (n: Node)
        requires
            self.soa.wf(),
            id < self.soa.size(),
        ensures
            n == self.soa.node_at(id as int),
    {
        self.soa.get(id)
    }
}

} // verus!
