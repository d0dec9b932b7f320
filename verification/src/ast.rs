//! Extended BML grammar: `S -> 1 | 0 | Var(id) | Const(id) | BML(S, S)`.
use vstd::prelude::*;

verus! {

/// Identifier of a node inside a graph.
pub type NodeId = u32;

/// Identifier of an input variable.
pub type VarId = u32;

/// Identifier of a constant (model weight) in the constant pool.
pub type ConstId = u32;

/// Kind of an AST node.
#[derive(Debug, Clone, Copy, PartialEq, Eq, Structural)]
pub enum NodeKind {
    /// The distinguished constant `1`.
    One,
    /// The distinguished constant `0`.
    Zero,
    /// An input variable, resolved from the input context.
    Var(VarId),
    /// A constant, resolved from the weight pool.
    Const(ConstId),
    /// `BML(left, right)`, the only operator of the grammar.
    Bml,
}

/// Logical AST node. Leaves have no children; `Bml` has both.
#[derive(Debug, Clone, Copy, PartialEq, Eq, Structural)]
pub struct Node {
    /// Identifier of the node.
    pub id: NodeId,
    /// Kind of the node.
    pub kind: NodeKind,
    /// Left subtree (only for `Bml`).
    pub left: Option<NodeId>,
    /// Right subtree (only for `Bml`).
    pub right: Option<NodeId>,
}

impl Node {
    /// A leaf of the given kind.
    pub open spec fn leaf(id: NodeId, kind: NodeKind) -> Node {
        Node { id, kind, left: None, right: None }
    }

    /// Creates the constant `1`.
    pub fn one(id: NodeId) -> (n: Node)
        ensures
            n == Node::leaf(id, NodeKind::One),
    {
        Node { id, kind: NodeKind::One, left: None, right: None }
    }

    /// Creates the constant `0`.
    pub fn zero(id: NodeId) -> (n: Node)
        ensures
            n == Node::leaf(id, NodeKind::Zero),
    {
        Node { id, kind: NodeKind::Zero, left: None, right: None }
    }

    /// Creates the variable node `Var(var_id)`.
    pub fn var(id: NodeId, var_id: VarId) -> (n: Node)
        ensures
            n == Node::leaf(id, NodeKind::Var(var_id)),
    {
        Node { id, kind: NodeKind::Var(var_id), left: None, right: None }
    }

    /// Creates the constant node `Const(const_id)`.
    pub fn const_(id: NodeId, const_id: ConstId) -> (n: Node)
        ensures
            n == Node::leaf(id, NodeKind::Const(const_id)),
    {
        Node { id, kind: NodeKind::Const(const_id), left: None, right: None }
    }

    /// Creates `BML(left, right)`.
    pub fn bml(id: NodeId, left: NodeId, right: NodeId) -> (n: Node)
        ensures
            n == (Node { id, kind: NodeKind::Bml, left: Some(left), right: Some(right) }),
    {
        Node { id, kind: NodeKind::Bml, left: Some(left), right: Some(right) }
    }

    /// `true` iff the node is the constant `1`.
    pub fn is_one(&self) -> (b: bool)
        ensures
            b == (self.kind is One),
    {
        matches!(self.kind, NodeKind::One)
    }

    /// `true` iff the node is an input variable.
    pub fn is_var(&self) -> (b: bool)
        ensures
            b == (self.kind is Var),
    {
        matches!(self.kind, NodeKind::Var(_))
    }

    /// `true` iff the node is a constant of the weight pool.
    pub fn is_const(&self) -> (b: bool)
        ensures
            b == (self.kind is Const),
    {
        matches!(self.kind, NodeKind::Const(_))
    }

    /// `true` iff the node is an application of `BML`.
    pub fn is_bml(&self) -> (b: bool)
        ensures
            b == (self.kind is Bml),
    {
        matches!(self.kind, NodeKind::Bml)
    }
}

} // verus!
