//! Encoding of real values as BML trees.
//!
//! `0.0` becomes a `Zero` leaf, `1.0` a `One` leaf and any other value a
//! `Const` leaf whose id indexes a pool of distinct values: encoding a
//! value already in the pool reuses its id. Values are handled as the bit
//! patterns of their `f64` values; like `==` on `f64`, both `0.0` and
//! `-0.0` count as zero, while other values are told apart by their bits.
use crate::ast::{ConstId, Node, NodeId, NodeKind};
use crate::hash_cons::{find_value, ONE_BITS};
use std::collections::HashMap;
use vstd::prelude::*;

verus! {

broadcast use vstd::std_specs::hash::group_hash_axioms;

/// Bit pattern of `-0.0`.
pub const NEG_ZERO_BITS: u64 = 0x8000_0000_0000_0000;

/// The value with bit pattern `bits` equals `0.0`.
pub open spec fn is_zero_bits(bits: u64) -> bool {
    bits == 0 || bits == NEG_ZERO_BITS
}

/// Kind of the leaf that encodes value `bits`, given the pool before.
pub open spec fn leaf_kind(pool: Seq<u64>, bits: u64) -> NodeKind {
    if is_zero_bits(bits) {
        NodeKind::Zero
    } else if bits == ONE_BITS {
        NodeKind::One
    } else {
        match find_value(pool, bits) {
            Some(c) => NodeKind::Const(c as ConstId),
            None => NodeKind::Const(pool.len() as ConstId),
        }
    }
}

/// The pool after encoding value `bits`.
pub open spec fn pool_after(pool: Seq<u64>, bits: u64) -> Seq<u64> {
    if is_zero_bits(bits) || bits == ONE_BITS || find_value(pool, bits) is Some {
        pool
    } else {
        pool.push(bits)
    }
}

/// Builds BML trees over a pool of distinct constant values.
pub struct RealEncoder {
    nodes: Vec<Node>,
    const_pool: HashMap<u64, u32>,
    const_values: Vec<u64>,
}

impl RealEncoder {
    /// The nodes built so far; node `i` has id `i`.
    pub closed spec fn node_seq(&self) -> Seq<Node> {
        self.nodes@
    }

    /// The constant pool: distinct `f64` bit patterns, by constant id.
    pub closed spec fn pool(&self) -> Seq<u64> {
        self.const_values@
    }

    /// Node ids are positions; the lookup table indexes the pool exactly.
    pub closed spec fn wf(&self) -> bool {
        &&& self.nodes@.len() <= u32::MAX
        &&& self.const_values@.len() <= self.nodes@.len()
        &&& forall|i: int| 0 <= i < self.nodes@.len() ==> (#[trigger] self.nodes@[i]).id == i
        &&& forall|c: int|
            0 <= c < self.const_values@.len() ==> self.const_pool@.contains_key(
                #[trigger] self.const_values@[c],
            ) && self.const_pool@[self.const_values@[c]] == c
        &&& forall|b: u64|
            #[trigger] self.const_pool@.contains_key(b) ==> (self.const_pool@[b] as int)
                < self.const_values@.len() && self.const_values@[self.const_pool@[b] as int] == b
    }

    /// An empty encoder.
    pub fn new() -> (e: Self)
        ensures
            e.wf(),
            e.node_seq() == Seq::<Node>::empty(),
            e.pool() == Seq::<u64>::empty(),
    {
        RealEncoder { nodes: Vec::new(), const_pool: HashMap::new(), const_values: Vec::new() }
    }

    /// An empty encoder with room for `cap` nodes.
    pub fn with_capacity(cap: usize) -> (e: Self)
        ensures
            e.wf(),
            e.node_seq() == Seq::<Node>::empty(),
            e.pool() == Seq::<u64>::empty(),
    {
        RealEncoder {
            nodes: Vec::with_capacity(cap),
            const_pool: HashMap::new(),
            const_values: Vec::new(),
        }
    }

    fn push(&mut self, kind: NodeKind, left: Option<NodeId>, right: Option<NodeId>) -> (id: NodeId)
        requires
            old(self).wf(),
            old(self).node_seq().len() < u32::MAX,
        ensures
            final(self).wf(),
            final(self).pool() == old(self).pool(),
            id == old(self).node_seq().len(),
            final(self).node_seq() == old(self).node_seq().push((Node { id, kind, left, right })),
    {
        let id = self.nodes.len() as NodeId;
        self.nodes.push(Node { id, kind, left, right });
        proof {
            assert forall|i: int| 0 <= i < self.nodes@.len() implies (#[trigger] self.nodes@[i]).id == i by {
                if i < old(self).nodes@.len() {
                    assert(self.nodes@[i] == old(self).nodes@[i]);
                }
            }
        }
        id
    }

    /// Encodes the value with bit pattern `bits` as a new leaf: `Zero`
    /// for `0.0` and `-0.0`, `One` for `1.0`, otherwise `Const` of the
    /// value's pool entry (added when the value is new).
    pub fn encode_f64(&mut self, bits: u64) -> (id: NodeId)
        requires
            old(self).wf(),
            old(self).node_seq().len() < u32::MAX,
        ensures
            final(self).wf(),
            id == old(self).node_seq().len(),
            final(self).node_seq() == old(self).node_seq().push(
                Node::leaf(id, leaf_kind(old(self).pool(), bits)),
            ),
            final(self).pool() == pool_after(old(self).pool(), bits),
    {
        if bits == 0 || bits == NEG_ZERO_BITS {
            return self.push(NodeKind::Zero, None, None);
        }
        if bits == ONE_BITS {
            return self.push(NodeKind::One, None, None);
        }
        match self.const_pool.get(&bits) {
            Some(cr) => {
                let c = *cr;
                proof {
                    let ci = c as int;
                    assert(0 <= ci < self.const_values@.len() && self.const_values@[ci] == bits);
                    assert forall|c2: int|
                        0 <= c2 < self.const_values@.len() && self.const_values@[c2] == bits implies c2
                        == ci by {
                        assert(self.const_pool@[self.const_values@[c2]] == c2);
                    }
                    let w = choose|c3: int|
                        0 <= c3 < self.const_values@.len() && self.const_values@[c3] == bits;
                    assert(find_value(self.const_values@, bits) == Some(ci));
                }
                self.push(NodeKind::Const(c), None, None)
            },
            None => {
                proof {
                    assert forall|c: int|
                        !(0 <= c < self.const_values@.len() && self.const_values@[c] == bits) by {
                        if 0 <= c < self.const_values@.len() && self.const_values@[c] == bits {
                            assert(self.const_pool@.contains_key(self.const_values@[c]));
                        }
                    }
                    assert(find_value(self.const_values@, bits) is None);
                }
                let c = self.const_values.len() as ConstId;
                let id = self.push(NodeKind::Const(c), None, None);
                let ghost old_values = self.const_values@;
                self.const_values.push(bits);
                self.const_pool.insert(bits, c);
                proof {
                    assert forall|c2: int| 0 <= c2 < self.const_values@.len() implies self.const_pool@.contains_key(
                        #[trigger] self.const_values@[c2],
                    ) && self.const_pool@[self.const_values@[c2]] == c2 by {
                        if c2 < old_values.len() {
                            assert(self.const_values@[c2] == old_values[c2]);
                        }
                    }
                }
                id
            },
        }
    }

    /// Adds `BML(left, right)`.
    pub fn bml(&mut self, left: NodeId, right: NodeId) -> (id: NodeId)
        requires
            old(self).wf(),
            old(self).node_seq().len() < u32::MAX,
        ensures
            final(self).wf(),
            final(self).pool() == old(self).pool(),
            id == old(self).node_seq().len(),
            final(self).node_seq() == old(self).node_seq().push(
                (Node { id, kind: NodeKind::Bml, left: Some(left), right: Some(right) }),
            ),
    {
        self.push(NodeKind::Bml, Some(left), Some(right))
    }

    /// Number of nodes.
    pub fn node_count(&self) -> (n: usize)
        ensures
            n == self.node_seq().len(),
    {
        self.nodes.len()
    }

    /// Number of distinct constant values.
    pub fn const_count(&self) -> (n: usize)
        ensures
            n == self.pool().len(),
    {
        self.const_values.len()
    }

    /// The constant values (bit patterns), by constant id.
    pub fn const_values(&self) -> (v: &[u64])
        ensures
            v@ == self.pool(),
    {
        self.const_values.as_slice()
    }

    /// Node `id`.
    pub fn build_node(&self, id: NodeId) -> (n: Node)
        requires
            (id as int) < self.node_seq().len(),
        ensures
            n == self.node_seq()[id as int],
    {
        self.nodes[id as usize]
    }

    /// All nodes, by id.
    pub fn build_nodes(&self) -> (v: Vec<Node>)
        ensures
            v@ == self.node_seq(),
    {
        let mut v: Vec<Node> = Vec::new();
        let mut i: usize = 0;
        while i < self.nodes.len()
            invariant
                i <= self.nodes@.len(),
                v@ == self.nodes@.subrange(0, i as int),
            decreases self.nodes@.len() - i,
        {
            v.push(self.nodes[i]);
            i = i + 1;
            assert(v@ =~= self.nodes@.subrange(0, i as int));
        }
        assert(v@ =~= self.nodes@);
        v
    }
}

impl Default for RealEncoder {
    fn default() -> (e: Self)
        ensures
            e.wf(),
            e.node_seq() == Seq::<Node>::empty(),
            e.pool() == Seq::<u64>::empty(),
    {
        RealEncoder::new()
    }
}

/// Encoding the same value twice gives the same leaf kind and leaves the
/// pool as the first encoding left it: no value enters the pool twice.
pub proof fn law_encoding_deduplicates(pool: Seq<u64>, bits: u64)
    ensures
        pool_after(pool_after(pool, bits), bits) == pool_after(pool, bits),
        leaf_kind(pool_after(pool, bits), bits) == leaf_kind(pool, bits),
{
    if !is_zero_bits(bits) && bits != ONE_BITS && find_value(pool, bits) is None {
        let p2 = pool.push(bits);
        let c = pool.len() as int;
        assert(0 <= c < p2.len() && p2[c] == bits);
        assert forall|c2: int| 0 <= c2 < p2.len() && p2[c2] == bits implies c2 == c by {
            if c2 < pool.len() {
                assert(pool[c2] == bits);
            }
        }
        let w = choose|c3: int| 0 <= c3 < p2.len() && p2[c3] == bits;
        assert(find_value(p2, bits) == Some(c));
    }
}

} // verus!
