//! Struct-of-arrays layout of the nodes of a BML graph: one vector per
//! field, so that evaluation only touches the fields it needs.
use crate::ast::{ConstId, Node, NodeId, NodeKind, VarId};
use vstd::prelude::*;

verus! {

/// Default initial capacity of each array.
pub const DEFAULT_CAPACITY: usize = 64;

/// Struct of arrays of graph nodes. Node `i` has kind `kinds[i]` and, when
/// it is a `Bml` node, children `lefts[i]` and `rights[i]` (both `0` for leaves).
#[derive(Debug, Clone)]
pub struct NodeSoA {
    /// Kind of each node.
    pub kinds: Vec<NodeKind>,
    /// Left child of each node (`0` for leaves).
    pub lefts: Vec<NodeId>,
    /// Right child of each node (`0` for leaves).
    pub rights: Vec<NodeId>,
}

impl NodeSoA {
    /// The three arrays have the same length.
    pub open spec fn wf(&self) -> bool {
        &&& self.lefts@.len() == self.kinds@.len()
        &&& self.rights@.len() == self.kinds@.len()
    }

    /// Number of nodes.
    pub open spec fn size(&self) -> nat {
        self.kinds@.len()
    }

    /// The logical node stored at index `i`.
    pub open spec fn node_at(&self, i: int) -> Node {
        if self.kinds@[i] is Bml {
            Node {
                id: i as NodeId,
                kind: NodeKind::Bml,
                left: Some(self.lefts@[i]),
                right: Some(self.rights@[i]),
            }
        } else {
            Node::leaf(i as NodeId, self.kinds@[i])
        }
    }

    /// Every child reference of a `Bml` node points to an existing node.
    pub open spec fn children_in_range(&self) -> bool {
        forall|i: int|
            0 <= i < self.size() && (#[trigger] self.kinds@[i]) is Bml ==> self.lefts@[i]
                < self.size() && self.rights@[i] < self.size()
    }

    /// Every child of a `Bml` node was created before the node itself,
    /// so the graph is acyclic.
    pub open spec fn children_before(&self) -> bool {
        forall|i: int|
            0 <= i < self.size() && (#[trigger] self.kinds@[i]) is Bml ==> self.lefts@[i] < i
                && self.rights@[i] < i
    }

    /// `self` is `old` with one more node of kind `k` and children `l`, `r`.
    pub open spec fn pushed(&self, old: NodeSoA, k: NodeKind, l: NodeId, r: NodeId) -> bool {
        &&& self.kinds@ == old.kinds@.push(k)
        &&& self.lefts@ == old.lefts@.push(l)
        &&& self.rights@ == old.rights@.push(r)
    }

    /// Creates an empty graph with the default capacity.
    pub fn new() -> (s: Self)
        ensures
            s.wf(),
            s.size() == 0,
    {
        Self::with_capacity(DEFAULT_CAPACITY)
    }

    /// Creates an empty graph with the given capacity.
    pub fn with_capacity(capacity: usize) -> (s: Self)
        ensures
            s.wf(),
            s.size() == 0,
    {
        NodeSoA {
            kinds: Vec::with_capacity(capacity),
            lefts: Vec::with_capacity(capacity),
            rights: Vec::with_capacity(capacity),
        }
    }

    /// Number of nodes.
    pub fn len(&self) -> (n: usize)
        ensures
            n == self.size(),
    {
        self.kinds.len()
    }

    /// `true` iff there are no nodes.
    pub fn is_empty(&self) -> (b: bool)
        ensures
            b == (self.size() == 0),
    {
        self.kinds.len() == 0
    }

    /// Appends a node; the children of a leaf are stored as `0`.
    pub fn push(&mut self, node: Node)
        ensures
            final(self).pushed(
                *old(self),
                node.kind,
                match node.left {
                    Some(l) => l,
                    None => 0,
                },
                match node.right {
                    Some(r) => r,
                    None => 0,
                },
            ),
    {
        self.kinds.push(node.kind);
        self.lefts.push(match node.left {
            Some(l) => l,
            None => 0,
        });
        self.rights.push(match node.right {
            Some(r) => r,
            None => 0,
        });
    }

    /// Appends a leaf of the given kind and returns its identifier.
    fn push_leaf(&mut self, kind: NodeKind) -> (id: NodeId)
        requires
            old(self).size() < u32::MAX,
        ensures
            id == old(self).size(),
            final(self).pushed(*old(self), kind, 0, 0),
    {
        let id = self.kinds.len() as NodeId;
        self.push(Node { id, kind, left: None, right: None });
        id
    }

    /// Appends the constant `1` and returns its identifier.
    pub fn push_one(&mut self) -> (id: NodeId)
        requires
            old(self).size() < u32::MAX,
        ensures
            id == old(self).size(),
            final(self).pushed(*old(self), NodeKind::One, 0, 0),
    {
        self.push_leaf(NodeKind::One)
    }

    /// Appends the constant `0` and returns its identifier.
    pub fn push_zero(&mut self) -> (id: NodeId)
        requires
            old(self).size() < u32::MAX,
        ensures
            id == old(self).size(),
            final(self).pushed(*old(self), NodeKind::Zero, 0, 0),
    {
        self.push_leaf(NodeKind::Zero)
    }

    /// Appends the variable `Var(var_id)` and returns its identifier.
    pub fn push_var(&mut self, var_id: VarId) -> (id: NodeId)
        requires
            old(self).size() < u32::MAX,
        ensures
            id == old(self).size(),
            final(self).pushed(*old(self), NodeKind::Var(var_id), 0, 0),
    {
        self.push_leaf(NodeKind::Var(var_id))
    }

    /// Appends the constant `Const(const_id)` and returns its identifier.
    pub fn push_const(&mut self, const_id: ConstId) -> (id: NodeId)
        requires
            old(self).size() < u32::MAX,
        ensures
            id == old(self).size(),
            final(self).pushed(*old(self), NodeKind::Const(const_id), 0, 0),
    {
        self.push_leaf(NodeKind::Const(const_id))
    }

    /// Appends `BML(left, right)` and returns its identifier.
    pub fn push_bml(&mut self, left: NodeId, right: NodeId) -> (id: NodeId)
        requires
            old(self).size() < u32::MAX,
        ensures
            id == old(self).size(),
            final(self).pushed(*old(self), NodeKind::Bml, left, right),
    {
        let id = self.kinds.len() as NodeId;
        self.push(Node { id, kind: NodeKind::Bml, left: Some(left), right: Some(right) });
        id
    }

    /// The logical node with the given identifier.
    pub fn get(&self, id: NodeId) -> (n: Node)
        requires
            self.wf(),
            id < self.size(),
        ensures
            n == self.node_at(id as int),
    {
        let idx = id as usize;
        let kind = self.kinds[idx];
        match kind {
            NodeKind::Bml => Node {
                id,
                kind: NodeKind::Bml,
                left: Some(self.lefts[idx]),
                right: Some(self.rights[idx]),
            },
            _ => Node { id, kind, left: None, right: None },
        }
    }

    /// Reserves room for at least `additional` more nodes; contents unchanged.
    pub fn reserve(&mut self, additional: usize)
        ensures
            final(self).kinds@ == old(self).kinds@,
            final(self).lefts@ == old(self).lefts@,
            final(self).rights@ == old(self).rights@,
    {
        self.kinds.reserve(additional);
        self.lefts.reserve(additional);
        self.rights.reserve(additional);
    }
}

impl Default for NodeSoA {
    fn default() -> (s: Self)
        ensures
            s.wf(),
            s.size() == 0,
    {
        NodeSoA::new()
    }
}

} // verus!
