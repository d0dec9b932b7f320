//! Strict BML grammar: `S -> 1 | BML(S, S)`. No other operation exists;
//! every standard operation is reduced to this grammar.
use vstd::prelude::*;

verus! {

/// Identifier of a node inside a graph.
pub type NodeId = u32;

/// Kind of a node of the strict grammar.
#[derive(Debug, Clone, Copy, PartialEq, Eq, Structural)]
pub enum NodeKind {
    /// The distinguished constant `1`.
    One,
    /// `BML(left, right)`.
    Bml,
}

/// Logical node of the strict grammar.
#[derive(Debug, Clone, Copy, PartialEq, Eq, Structural)]
pub struct Node {
    /// Identifier of the node.
    pub id: NodeId,
    /// Kind of the node.
    pub kind: NodeKind,
    /// Left subtree (only for `Bml`).
    pub left: Option<NodeId>,
    /// Right subtree (only for `Bml`).
    pub right: Option<NodeId>,
}

impl Node {
    /// Creates the constant `1`.
    pub fn one(id: NodeId) -> (n: Node)
        ensures
            n == (Node { id, kind: NodeKind::One, left: None, right: None }),
    {
        Node { id, kind: NodeKind::One, left: None, right: None }
    }

    /// Creates `BML(left, right)`.
    pub fn bml(id: NodeId, left: NodeId, right: NodeId) -> (n: Node)
        ensures
            n == (Node { id, kind: NodeKind::Bml, left: Some(left), right: Some(right) }),
    {
        Node { id, kind: NodeKind::Bml, left: Some(left), right: Some(right) }
    }

    /// `true` iff the node is the constant `1`.
    pub fn is_one(&self) -> (b: bool)
        ensures
            b == (self.kind is One),
    {
        matches!(self.kind, NodeKind::One)
    }

    /// `true` iff the node is an application of `BML`.
    pub fn is_bml(&self) -> (b: bool)
        ensures
            b == (self.kind is Bml),
    {
        matches!(self.kind, NodeKind::Bml)
    }
}

} // verus!
