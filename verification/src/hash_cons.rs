//! Hash consing: the registry of the sub-trees already built.
//!
//! Structurally identical sub-trees get the same `NodeId`: asking for
//! `1`, `0`, a constant value or `BML(left, right)` a second time returns
//! the node built the first time. Since children are themselves
//! canonical, the graph never holds two identical sub-trees (variables
//! excepted: each `var` call makes a new input node).
//!
//! Constant values are held as the bit patterns of their `f64` values and
//! compared by bits.
use crate::ast::{ConstId, NodeId, NodeKind, VarId};
use crate::soa::NodeSoA;
use std::collections::HashMap;
use vstd::prelude::*;

verus! {

broadcast use vstd::std_specs::hash::group_hash_axioms;

/// Bit pattern of the `f64` value `1.0`.
pub const ONE_BITS: u64 = 0x3FF0000000000000;

/// Bit pattern of the `f64` value `0.0`.
pub const ZERO_BITS: u64 = 0;

/// Table key of `BML(left, right)`.
pub open spec fn pair_key(left: NodeId, right: NodeId) -> u64 {
    (left as u64 * 4294967296 + right as u64) as u64
}

proof fn lemma_pair_key_injective(l1: NodeId, r1: NodeId, l2: NodeId, r2: NodeId)
    requires
        pair_key(l1, r1) == pair_key(l2, r2),
    ensures
        l1 == l2,
        r1 == r2,
{
}

/// Node `i` of `g` has kind `k` and children `l`, `r` (`0`, `0` for leaves).
pub open spec fn is_node(g: NodeSoA, i: int, k: NodeKind, l: NodeId, r: NodeId) -> bool {
    &&& 0 <= i < g.size()
    &&& g.kinds@[i] == k
    &&& g.lefts@[i] == l
    &&& g.rights@[i] == r
}

/// A node of `g` with kind `k` and children `l`, `r`, if there is one.
pub open spec fn find_node(g: NodeSoA, k: NodeKind, l: NodeId, r: NodeId) -> Option<int> {
    if exists|i: int| is_node(g, i, k, l, r) {
        Some(choose|i: int| is_node(g, i, k, l, r))
    } else {
        None
    }
}

/// Index of a value in the constant pool, if it is there.
pub open spec fn find_value(pool: Seq<u64>, bits: u64) -> Option<int> {
    if exists|c: int| 0 <= c < pool.len() && pool[c] == bits {
        Some(choose|c: int| 0 <= c < pool.len() && pool[c] == bits)
    } else {
        None
    }
}

/// Value bits of node `i` when it is a constant: `1.0` for `One`, `0.0`
/// for `Zero`, the pool entry for `Const` (none if the entry is missing).
pub open spec fn const_bits(g: NodeSoA, pool: Seq<u64>, i: int) -> Option<u64> {
    match g.kinds@[i] {
        NodeKind::One => Some(ONE_BITS),
        NodeKind::Zero => Some(ZERO_BITS),
        NodeKind::Const(c) => if c < pool.len() {
            Some(pool[c as int])
        } else {
            None
        },
        _ => None,
    }
}

/// Some node of `g` is the constant `Const(c)`.
pub open spec fn has_const_node(g: NodeSoA, c: int) -> bool {
    exists|i: int| 0 <= i < g.size() && #[trigger] g.kinds@[i] == NodeKind::Const(c as ConstId)
}

/// Registry of the sub-trees built so far, with hash consing.
pub struct HashConsRegistry {
    soa: NodeSoA,
    one_id: Option<NodeId>,
    zero_id: Option<NodeId>,
    table: HashMap<u64, NodeId>,
    const_pool: Vec<u64>,
    const_table: HashMap<u64, ConstId>,
}

impl HashConsRegistry {
    /// The graph built so far.
    pub closed spec fn graph(&self) -> NodeSoA {
        self.soa
    }

    /// The constant pool: `f64` bit patterns, by constant id.
    pub closed spec fn pool(&self) -> Seq<u64> {
        self.const_pool@
    }

    /// The registry's invariant: the graph is well formed and acyclic, and
    /// the tables index exactly its `One`, `Zero`, `Bml` and `Const` nodes.
    pub closed spec fn wf(&self) -> bool {
        let g = self.soa;
        let n = g.size();
        &&& g.wf()
        &&& n <= u32::MAX
        &&& g.children_before()
        &&& forall|i: int| 0 <= i < n && !(#[trigger] g.kinds@[i] is Bml) ==> g.lefts@[i] == 0
            && g.rights@[i] == 0
        &&& match self.one_id {
            Some(i) => i < n && g.kinds@[i as int] is One,
            None => true,
        }
        &&& forall|i: int| 0 <= i < n && (#[trigger] g.kinds@[i]) is One ==> self.one_id == Some(
            i as NodeId,
        )
        &&& match self.zero_id {
            Some(i) => i < n && g.kinds@[i as int] is Zero,
            None => true,
        }
        &&& forall|i: int| 0 <= i < n && (#[trigger] g.kinds@[i]) is Zero ==> self.zero_id == Some(
            i as NodeId,
        )
        &&& forall|k: u64|
            #[trigger] self.table@.contains_key(k) ==> {
                let i = self.table@[k] as int;
                &&& 0 <= i < n
                &&& g.kinds@[i] is Bml
                &&& pair_key(g.lefts@[i], g.rights@[i]) == k
            }
        &&& forall|i: int|
            0 <= i < n && (#[trigger] g.kinds@[i]) is Bml ==> self.table@.contains_key(
                pair_key(g.lefts@[i], g.rights@[i]),
            ) && self.table@[pair_key(g.lefts@[i], g.rights@[i])] == i
        &&& self.const_pool@.len() <= n
        &&& forall|i: int|
            0 <= i < n && (#[trigger] g.kinds@[i]) is Const ==> (g.kinds@[i]->Const_0 as int)
                < self.const_pool@.len()
        &&& forall|i: int, j: int|
            0 <= i < n && 0 <= j < n && (#[trigger] g.kinds@[i]) is Const && (#[trigger] g.kinds@[j])
                == g.kinds@[i] ==> i == j
        &&& forall|c: int| 0 <= c < self.const_pool@.len() ==> #[trigger] has_const_node(g, c)
        &&& forall|c: int|
            0 <= c < self.const_pool@.len() ==> self.const_table@.contains_key(
                #[trigger] self.const_pool@[c],
            ) && self.const_table@[self.const_pool@[c]] == c
        &&& forall|b: u64|
            #[trigger] self.const_table@.contains_key(b) ==> (self.const_table@[b] as int)
                < self.const_pool@.len() && self.const_pool@[self.const_table@[b] as int] == b
    }

    /// An empty registry.
    pub fn new() -> (r: Self)
        ensures
            r.wf(),
            r.graph().size() == 0,
            r.pool().len() == 0,
    {
        Self::with_capacity(crate::soa::DEFAULT_CAPACITY)
    }

    /// An empty registry with room for `capacity` nodes.
    pub fn with_capacity(capacity: usize) -> (r: Self)
        ensures
            r.wf(),
            r.graph().size() == 0,
            r.pool().len() == 0,
    {
        HashConsRegistry {
            soa: NodeSoA::with_capacity(capacity),
            one_id: None,
            zero_id: None,
            table: HashMap::with_capacity(capacity),
            const_pool: Vec::with_capacity(capacity),
            const_table: HashMap::with_capacity(capacity),
        }
    }

    /// The graph built so far.
    pub fn soa(&self) -> (g: &NodeSoA)
        ensures
            *g == self.graph(),
    {
        &self.soa
    }

    /// The graph, consuming the registry.
    pub fn into_soa(self) -> (g: NodeSoA)
        ensures
            g == self.graph(),
    {
        self.soa
    }

    /// Number of distinct nodes.
    pub fn len(&self) -> (n: usize)
        ensures
            n == self.graph().size(),
    {
        self.soa.len()
    }

    /// `true` iff no node was built.
    pub fn is_empty(&self) -> (b: bool)
        ensures
            b == (self.graph().size() == 0),
    {
        self.soa.is_empty()
    }

    /// Number of distinct nodes.
    pub fn unique_count(&self) -> (n: usize)
        ensures
            n == self.graph().size(),
    {
        self.soa.len()
    }

    /// The constant pool (`f64` bit patterns by constant id).
    pub fn const_pool(&self) -> (p: &[u64])
        ensures
            p@ == self.pool(),
    {
        self.const_pool.as_slice()
    }

    /// The graph and the constant pool, consuming the registry.
    pub fn into_soa_and_pool(self) -> (r: (NodeSoA, Vec<u64>))
        ensures
            r.0 == self.graph(),
            r.1@ == self.pool(),
    {
        (self.soa, self.const_pool)
    }

    /// The node `1`, built on the first request.
    pub fn one(&mut self) -> (id: NodeId)
        requires
            old(self).wf(),
            old(self).graph().size() < u32::MAX,
        ensures
            final(self).wf(),
            final(self).pool() == old(self).pool(),
            is_node(final(self).graph(), id as int, NodeKind::One, 0, 0),
            match find_node(old(self).graph(), NodeKind::One, 0, 0) {
                Some(i) => id == i && final(self).graph() == old(self).graph(),
                None => id == old(self).graph().size() && final(self).graph().pushed(
                    old(self).graph(),
                    NodeKind::One,
                    0,
                    0,
                ),
            },
    {
        match self.one_id {
            Some(id) => {
                proof {
                    self.lemma_unique_leaf(id as int, NodeKind::One);
                }
                id
            },
            None => {
                proof {
                    assert(!exists|i: int| is_node(self.soa, i, NodeKind::One, 0, 0));
                }
                let id = self.soa.push_one();
                self.one_id = Some(id);
                proof {
                    self.lemma_pushed_leaf_keeps(*old(self), NodeKind::One);
                }
                id
            },
        }
    }

    /// The node `0`, built on the first request.
    pub fn zero(&mut self) -> (id: NodeId)
        requires
            old(self).wf(),
            old(self).graph().size() < u32::MAX,
        ensures
            final(self).wf(),
            final(self).pool() == old(self).pool(),
            is_node(final(self).graph(), id as int, NodeKind::Zero, 0, 0),
            match find_node(old(self).graph(), NodeKind::Zero, 0, 0) {
                Some(i) => id == i && final(self).graph() == old(self).graph(),
                None => id == old(self).graph().size() && final(self).graph().pushed(
                    old(self).graph(),
                    NodeKind::Zero,
                    0,
                    0,
                ),
            },
    {
        match self.zero_id {
            Some(id) => {
                proof {
                    self.lemma_unique_leaf(id as int, NodeKind::Zero);
                }
                id
            },
            None => {
                proof {
                    assert(!exists|i: int| is_node(self.soa, i, NodeKind::Zero, 0, 0));
                }
                let id = self.soa.push_zero();
                self.zero_id = Some(id);
                proof {
                    self.lemma_pushed_leaf_keeps(*old(self), NodeKind::Zero);
                }
                id
            },
        }
    }

    /// A new input node `Var(var_id)`; inputs are not shared.
    pub fn var(&mut self, var_id: VarId) -> (id: NodeId)
        requires
            old(self).wf(),
            old(self).graph().size() < u32::MAX,
        ensures
            final(self).wf(),
            final(self).pool() == old(self).pool(),
            id == old(self).graph().size(),
            final(self).graph().pushed(old(self).graph(), NodeKind::Var(var_id), 0, 0),
    {
        let id = self.soa.push_var(var_id);
        proof {
            self.lemma_pushed_leaf_keeps(*old(self), NodeKind::Var(var_id));
        }
        id
    }

    /// The node `BML(left, right)`, built on the first request (no
    /// constant folding).
    pub fn bml_node(&mut self, left: NodeId, right: NodeId) -> (id: NodeId)
        requires
            old(self).wf(),
            old(self).graph().size() < u32::MAX,
            left < old(self).graph().size(),
            right < old(self).graph().size(),
        ensures
            final(self).wf(),
            final(self).pool() == old(self).pool(),
            is_node(final(self).graph(), id as int, NodeKind::Bml, left, right),
            match find_node(old(self).graph(), NodeKind::Bml, left, right) {
                Some(i) => id == i && final(self).graph() == old(self).graph(),
                None => id == old(self).graph().size() && final(self).graph().pushed(
                    old(self).graph(),
                    NodeKind::Bml,
                    left,
                    right,
                ),
            },
    {
        let key: u64 = (left as u64) * 4294967296 + (right as u64);
        match self.table.get(&key) {
            Some(idr) => {
                let id = *idr;
                proof {
                    let i = id as int;
                    lemma_pair_key_injective(self.soa.lefts@[i], self.soa.rights@[i], left, right);
                    assert(is_node(self.soa, i, NodeKind::Bml, left, right));
                    self.lemma_unique_bml(i, left, right);
                }
                id
            },
            None => {
                proof {
                    assert forall|i: int| !is_node(self.soa, i, NodeKind::Bml, left, right) by {
                        if is_node(self.soa, i, NodeKind::Bml, left, right) {
                            assert(self.soa.kinds@[i] is Bml);
                        }
                    }
                }
                let id = self.soa.push_bml(left, right);
                self.table.insert(key, id);
                proof {
                    self.lemma_pushed_bml_keeps(*old(self), left, right);
                }
                id
            },
        }
    }

    /// The node of constant `bits` (an `f64` bit pattern): the existing one
    /// when the pool already holds that value, else a new pool entry and a
    /// new `Const` node.
    pub fn const_value(&mut self, bits: u64) -> (id: NodeId)
        requires
            old(self).wf(),
            old(self).graph().size() < u32::MAX,
        ensures
            final(self).wf(),
            id < final(self).graph().size(),
            find_value(final(self).pool(), bits) matches Some(c) && final(self).graph().kinds@[id as int]
                == NodeKind::Const(c as ConstId),
            forall|j: int|
                0 <= j < final(self).graph().size() && #[trigger] final(self).graph().kinds@[j]
                    == final(self).graph().kinds@[id as int] ==> j == id,
            match find_value(old(self).pool(), bits) {
                Some(c) => final(self).graph() == old(self).graph() && final(self).pool() == old(
                    self,
                ).pool() && final(self).graph().kinds@[id as int] == NodeKind::Const(
                    c as ConstId,
                ),
                None => id == old(self).graph().size() && final(self).pool() == old(
                    self,
                ).pool().push(bits) && final(self).graph().pushed(
                    old(self).graph(),
                    NodeKind::Const(old(self).pool().len() as ConstId),
                    0,
                    0,
                ),
            },
    {
        match self.const_table.get(&bits) {
            Some(cidr) => {
                let cid = *cidr;
                proof {
                    let c = cid as int;
                    assert(0 <= c < self.const_pool@.len() && self.const_pool@[c] == bits);
                    assert forall|c2: int|
                        0 <= c2 < self.const_pool@.len() && self.const_pool@[c2] == bits implies c2
                        == c by {
                        assert(self.const_table@[self.const_pool@[c2]] == c2);
                    }
                }
                let ghost cc = choose|c: int| 0 <= c < self.const_pool@.len() && self.const_pool@[c] == bits;
                assert(cc == cid as int);
                assert(find_value(self.const_pool@, bits) == Some(cid as int));
                let n = self.soa.len();
                let mut i: usize = 0;
                while i < n
                    invariant
                        self.wf(),
                        n == self.soa.size(),
                        i <= n,
                        (cid as int) < self.const_pool@.len(),
                        find_value(self.const_pool@, bits) == Some(cid as int),
                        forall|j: int| 0 <= j < i ==> self.soa.kinds@[j] != NodeKind::Const(cid),
                    decreases n - i,
                {
                    let k = self.soa.kinds[i];
                    if let NodeKind::Const(c) = k {
                        if c == cid {
                            return i as NodeId;
                        }
                    }
                    i = i + 1;
                }
                proof {
                    assert(has_const_node(self.soa, cid as int));
                    let w = choose|j: int|
                        0 <= j < n && #[trigger] self.soa.kinds@[j] == NodeKind::Const(cid);
                    assert(self.soa.kinds@[w] == NodeKind::Const(cid));
                }
                0
            },
            None => {
                proof {
                    assert forall|c: int|
                        !(0 <= c < self.const_pool@.len() && self.const_pool@[c] == bits) by {
                        if 0 <= c < self.const_pool@.len() && self.const_pool@[c] == bits {
                            assert(self.const_table@.contains_key(self.const_pool@[c]));
                        }
                    }
                }
                let cid = self.const_pool.len() as ConstId;
                self.const_pool.push(bits);
                self.const_table.insert(bits, cid);
                let id = self.soa.push_const(cid);
                proof {
                    self.lemma_pushed_const_keeps(*old(self), bits);
                    let p = self.const_pool@;
                    assert(p[cid as int] == bits);
                    assert forall|c2: int| 0 <= c2 < p.len() && p[c2] == bits implies c2 == cid as int by {
                        if c2 < cid as int {
                            assert(p[c2] == old(self).const_pool@[c2]);
                        }
                    }
                    assert(find_value(p, bits) == Some(cid as int));
                }
                id
            },
        }
    }

    /// The value bits of `left` and `right` when both are constants (`1`,
    /// `0` or pool constants), the operands of constant folding.
    pub fn const_operands(&self, left: NodeId, right: NodeId) -> (r: Option<(u64, u64)>)
        requires
            self.wf(),
            left < self.graph().size(),
            right < self.graph().size(),
        ensures
            r == (match (
                const_bits(self.graph(), self.pool(), left as int),
                const_bits(self.graph(), self.pool(), right as int),
            ) {
                (Some(a), Some(b)) => Some((a, b)),
                _ => None,
            }),
    {
        let a = self.const_node_bits(left);
        let b = self.const_node_bits(right);
        match (a, b) {
            (Some(x), Some(y)) => Some((x, y)),
            _ => None,
        }
    }

    fn const_node_bits(&self, id: NodeId) -> (r: Option<u64>)
        requires
            self.wf(),
            id < self.graph().size(),
        ensures
            r == const_bits(self.graph(), self.pool(), id as int),
    {
        match self.soa.kinds[id as usize] {
            NodeKind::One => Some(ONE_BITS),
            NodeKind::Zero => Some(ZERO_BITS),
            NodeKind::Const(c) => if (c as usize) < self.const_pool.len() {
                Some(self.const_pool[c as usize])
            } else {
                None
            },
            _ => None,
        }
    }

    proof fn lemma_unique_leaf(&self, id: int, k: NodeKind)
        requires
            self.wf(),
            k == NodeKind::One || k == NodeKind::Zero,
            0 <= id < self.soa.size(),
            self.soa.kinds@[id] == k,
            k == NodeKind::One ==> self.one_id == Some(id as NodeId),
            k == NodeKind::Zero ==> self.zero_id == Some(id as NodeId),
        ensures
            is_node(self.soa, id, k, 0, 0),
            find_node(self.soa, k, 0, 0) == Some(id),
    {
        assert(is_node(self.soa, id, k, 0, 0));
        let c = choose|i: int| is_node(self.soa, i, k, 0, 0);
        assert(is_node(self.soa, c, k, 0, 0));
        assert(self.soa.kinds@[c] == k);
    }

    proof fn lemma_unique_bml(&self, id: int, left: NodeId, right: NodeId)
        requires
            self.wf(),
            is_node(self.soa, id, NodeKind::Bml, left, right),
        ensures
            find_node(self.soa, NodeKind::Bml, left, right) == Some(id),
    {
        let c = choose|i: int| is_node(self.soa, i, NodeKind::Bml, left, right);
        assert(is_node(self.soa, c, NodeKind::Bml, left, right));
        assert(self.soa.kinds@[c] is Bml);
        assert(self.soa.kinds@[id] is Bml);
    }

    proof fn lemma_pushed_leaf_keeps(&self, old: Self, k: NodeKind)
        requires
            old.wf(),
            !(k is Bml),
            !(k is Const),
            self.soa.pushed(old.soa, k, 0, 0),
            self.table == old.table,
            self.const_pool == old.const_pool,
            self.const_table == old.const_table,
            k is One ==> self.one_id == Some(old.soa.size() as NodeId) && forall|i: int|
                0 <= i < old.soa.size() ==> !(old.soa.kinds@[i] is One),
            !(k is One) ==> self.one_id == old.one_id,
            k is Zero ==> self.zero_id == Some(old.soa.size() as NodeId) && forall|i: int|
                0 <= i < old.soa.size() ==> !(old.soa.kinds@[i] is Zero),
            !(k is Zero) ==> self.zero_id == old.zero_id,
            old.soa.size() < u32::MAX,
        ensures
            self.wf(),
            is_node(self.soa, old.soa.size() as int, k, 0, 0),
    {
        let g = self.soa;
        let n = g.size();
        assert forall|c: int| 0 <= c < self.const_pool@.len() implies #[trigger] has_const_node(g, c) by {
            assert(has_const_node(old.soa, c));
            let w = choose|i: int|
                0 <= i < old.soa.size() && #[trigger] old.soa.kinds@[i] == NodeKind::Const(
                    c as ConstId,
                );
            assert(g.kinds@[w] == NodeKind::Const(c as ConstId));
        }
    }

    proof fn lemma_pushed_bml_keeps(&self, old: Self, left: NodeId, right: NodeId)
        requires
            old.wf(),
            left < old.soa.size(),
            right < old.soa.size(),
            old.soa.size() < u32::MAX,
            self.soa.pushed(old.soa, NodeKind::Bml, left, right),
            self.table@ == old.table@.insert(pair_key(left, right), old.soa.size() as NodeId),
            !old.table@.contains_key(pair_key(left, right)),
            self.one_id == old.one_id,
            self.zero_id == old.zero_id,
            self.const_pool == old.const_pool,
            self.const_table == old.const_table,
        ensures
            self.wf(),
            is_node(self.soa, old.soa.size() as int, NodeKind::Bml, left, right),
    {
        let g = self.soa;
        let n = g.size();
        assert forall|c: int| 0 <= c < self.const_pool@.len() implies #[trigger] has_const_node(g, c) by {
            assert(has_const_node(old.soa, c));
            let w = choose|i: int|
                0 <= i < old.soa.size() && #[trigger] old.soa.kinds@[i] == NodeKind::Const(
                    c as ConstId,
                );
            assert(g.kinds@[w] == NodeKind::Const(c as ConstId));
        }
        assert forall|k: u64| #[trigger] self.table@.contains_key(k) implies {
            let i = self.table@[k] as int;
            &&& 0 <= i < n
            &&& g.kinds@[i] is Bml
            &&& pair_key(g.lefts@[i], g.rights@[i]) == k
        } by {
            if k != pair_key(left, right) {
                assert(old.table@.contains_key(k));
            }
        }
        assert forall|i: int| 0 <= i < n && (#[trigger] g.kinds@[i]) is Bml implies self.table@.contains_key(
            pair_key(g.lefts@[i], g.rights@[i]),
        ) && self.table@[pair_key(g.lefts@[i], g.rights@[i])] == i by {
            if i < old.soa.size() {
                assert(old.soa.kinds@[i] is Bml);
                assert(old.table@.contains_key(pair_key(old.soa.lefts@[i], old.soa.rights@[i])));
            }
        }
    }

    proof fn lemma_pushed_const_keeps(&self, old: Self, bits: u64)
        requires
            old.wf(),
            old.soa.size() < u32::MAX,
            self.soa.pushed(old.soa, NodeKind::Const(old.const_pool@.len() as ConstId), 0, 0),
            self.const_pool@ == old.const_pool@.push(bits),
            self.const_table@ == old.const_table@.insert(bits, old.const_pool@.len() as ConstId),
            !old.const_table@.contains_key(bits),
            self.table == old.table,
            self.one_id == old.one_id,
            self.zero_id == old.zero_id,
        ensures
            self.wf(),
    {
        let g = self.soa;
        let n = g.size();
        let p = old.const_pool@.len();
        assert forall|c: int| 0 <= c < self.const_pool@.len() implies #[trigger] has_const_node(g, c) by {
            if c < p {
                assert(has_const_node(old.soa, c));
                let w = choose|i: int|
                    0 <= i < old.soa.size() && #[trigger] old.soa.kinds@[i] == NodeKind::Const(
                        c as ConstId,
                    );
                assert(g.kinds@[w] == NodeKind::Const(c as ConstId));
            } else {
                assert(g.kinds@[old.soa.size() as int] == NodeKind::Const(c as ConstId));
            }
        }
        assert forall|i: int, j: int|
            0 <= i < n && 0 <= j < n && (#[trigger] g.kinds@[i]) is Const && (#[trigger] g.kinds@[j])
                == g.kinds@[i] implies i == j by {
            if i < old.soa.size() && j < old.soa.size() {
                assert(old.soa.kinds@[i] is Const);
            } else if i < old.soa.size() {
                assert(old.soa.kinds@[i] is Const);
            } else if j < old.soa.size() {
                assert(old.soa.kinds@[j] is Const);
            }
        }
        assert forall|c: int| 0 <= c < self.const_pool@.len() implies self.const_table@.contains_key(
            #[trigger] self.const_pool@[c],
        ) && self.const_table@[self.const_pool@[c]] == c by {
            if c < p {
                assert(old.const_table@.contains_key(old.const_pool@[c]));
                assert(old.const_pool@[c] != bits);
            }
        }
        assert forall|b: u64| #[trigger] self.const_table@.contains_key(b) implies (
        self.const_table@[b] as int) < self.const_pool@.len() && self.const_pool@[self.const_table@[b] as int]
            == b by {
            if b != bits {
                assert(old.const_table@.contains_key(b));
            }
        }
    }
}

impl Default for HashConsRegistry {
    fn default() -> (r: Self)
        ensures
            r.wf(),
            r.graph().size() == 0,
            r.pool().len() == 0,
    {
        Self::new()
    }
}

/// No two nodes of a registry are the same sub-tree: nodes with equal
/// kind and equal children are one node, inputs aside.
pub proof fn law_no_duplicate_subtrees(reg: HashConsRegistry, i: int, j: int)
    requires
        reg.wf(),
        0 <= i < reg.graph().size(),
        0 <= j < reg.graph().size(),
        reg.graph().kinds@[i] == reg.graph().kinds@[j],
        reg.graph().lefts@[i] == reg.graph().lefts@[j],
        reg.graph().rights@[i] == reg.graph().rights@[j],
        !(reg.graph().kinds@[i] is Var),
    ensures
        i == j,
{
    let g = reg.soa;
    match g.kinds@[i] {
        NodeKind::Bml => {
            assert(g.kinds@[j] is Bml);
        },
        NodeKind::One => {
            assert(g.kinds@[j] is One);
        },
        NodeKind::Zero => {
            assert(g.kinds@[j] is Zero);
        },
        _ => {},
    }
}

/// `bml` is not commutative, and the registry never merges `bml(a, b)`
/// with `bml(b, a)` for distinct operands.
pub proof fn law_operand_order_kept(reg: HashConsRegistry, i: int, j: int, a: NodeId, b: NodeId)
    requires
        reg.wf(),
        a != b,
        is_node(reg.graph(), i, NodeKind::Bml, a, b),
        is_node(reg.graph(), j, NodeKind::Bml, b, a),
    ensures
        i != j,
{
}

/// Every node built by a registry is the one that a new request for the
/// same sub-tree returns: requesting it again adds nothing.
pub proof fn law_rebuild_returns_same(reg: HashConsRegistry, id: int)
    requires
        reg.wf(),
        0 <= id < reg.graph().size(),
        !(reg.graph().kinds@[id] is Var),
        !(reg.graph().kinds@[id] is Const),
    ensures
        find_node(
            reg.graph(),
            reg.graph().kinds@[id],
            reg.graph().lefts@[id],
            reg.graph().rights@[id],
        ) == Some(id),
{
    let g = reg.soa;
    let k = g.kinds@[id];
    let l = g.lefts@[id];
    let r = g.rights@[id];
    assert(is_node(g, id, k, l, r));
    let c = choose|x: int| is_node(g, x, k, l, r);
    assert(is_node(g, c, k, l, r));
    law_no_duplicate_subtrees(reg, c, id);
}

/// The constant pool never holds a value twice, and every constant has
/// exactly one node.
pub proof fn law_constants_distinct(reg: HashConsRegistry, a: int, b: int)
    requires
        reg.wf(),
        0 <= a < reg.pool().len(),
        0 <= b < reg.pool().len(),
        reg.pool()[a] == reg.pool()[b],
    ensures
        a == b,
{
    assert(reg.const_table@[reg.const_pool@[a]] == a);
    assert(reg.const_table@[reg.const_pool@[b]] == b);
}

} // verus!
