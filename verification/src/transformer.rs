//! Translation of standard operations into the BML grammar
//! `S -> 1 | BML(S, S)`, where `BML(x, y) = 2^x - log2(y)`.
//!
//! Identities used (base 2):
//!
//! - `2 = bml(1, 1)`
//! - `2^x = bml(x, 1)`
//! - `log2(x) = bml(1, bml(bml(1, x), 1))`
//! - `x - y = bml(log2(x), exp2(y))`
//! - `-x = bml(log2(0), exp2(x))`, with `0 = log2(1)` and `log2(0) = -inf`
//! - `x + y = x - (-y)`
//! - `1/x = exp2(-log2(x))`
//! - `x * y = exp2(log2(x) + log2(y))`
//! - `x / y = x * (1/y)`
//! - `x^y = exp2(y * log2(x))`
//!
//! Each operation appends fresh nodes (there is no sharing here) and
//! returns the root of the term it built.
use crate::ast::{NodeId, NodeKind};
use crate::soa::NodeSoA;
use vstd::prelude::*;

verus! {

/// A term of the BML grammar over the node kinds.
pub enum Term {
    One,
    Zero,
    Var(u32),
    Const(u32),
    Bml(Box<Term>, Box<Term>),
}

/// The term that node `i` of `g` denotes (children are read only when
/// they come before the node).
pub open spec fn term_of(g: NodeSoA, i: int) -> Term
    decreases i,
{
    if i < 0 || i >= g.size() {
        Term::One
    } else {
        match g.kinds@[i] {
            NodeKind::One => Term::One,
            NodeKind::Zero => Term::Zero,
            NodeKind::Var(v) => Term::Var(v),
            NodeKind::Const(c) => Term::Const(c),
            NodeKind::Bml => if 0 <= g.lefts@[i] < i && 0 <= g.rights@[i] < i {
                Term::Bml(
                    Box::new(term_of(g, g.lefts@[i] as int)),
                    Box::new(term_of(g, g.rights@[i] as int)),
                )
            } else {
                Term::One
            },
        }
    }
}

/// `bml(x, y)`.
pub open spec fn t_bml(x: Term, y: Term) -> Term {
    Term::Bml(Box::new(x), Box::new(y))
}

/// `2 = bml(1, 1)`.
pub open spec fn t_two() -> Term {
    t_bml(Term::One, Term::One)
}

/// `2^x = bml(x, 1)`.
pub open spec fn t_exp2(x: Term) -> Term {
    t_bml(x, Term::One)
}

/// `log2(x) = bml(1, bml(bml(1, x), 1))`.
pub open spec fn t_log2(x: Term) -> Term {
    t_bml(Term::One, t_bml(t_bml(Term::One, x), Term::One))
}

/// `x - y = bml(log2(x), exp2(y))`.
pub open spec fn t_sub(x: Term, y: Term) -> Term {
    t_bml(t_log2(x), t_exp2(y))
}

/// `-x = bml(log2(log2(1)), exp2(x))`.
pub open spec fn t_neg(x: Term) -> Term {
    t_bml(t_log2(t_log2(Term::One)), t_exp2(x))
}

/// `x + y = x - (-y)`.
pub open spec fn t_add(x: Term, y: Term) -> Term {
    t_sub(x, t_neg(y))
}

/// `1/x = exp2(-log2(x))`.
pub open spec fn t_recip(x: Term) -> Term {
    t_exp2(t_neg(t_log2(x)))
}

/// `x * y = exp2(log2(x) + log2(y))`.
pub open spec fn t_mul(x: Term, y: Term) -> Term {
    t_exp2(t_add(t_log2(x), t_log2(y)))
}

/// `x / y = x * (1/y)`.
pub open spec fn t_div(x: Term, y: Term) -> Term {
    t_mul(x, t_recip(y))
}

/// `x^y = exp2(y * log2(x))`.
pub open spec fn t_pow(x: Term, y: Term) -> Term {
    t_exp2(t_mul(y, t_log2(x)))
}

/// `g2` is `g1` with nodes appended.
pub open spec fn extends(g2: NodeSoA, g1: NodeSoA) -> bool {
    &&& g1.size() <= g2.size()
    &&& g2.kinds@.subrange(0, g1.size() as int) == g1.kinds@
    &&& g2.lefts@.subrange(0, g1.size() as int) == g1.lefts@
    &&& g2.rights@.subrange(0, g1.size() as int) == g1.rights@
}

/// Every node of `g` is `1` or `BML`: the pure grammar.
pub open spec fn pure_grammar(g: NodeSoA) -> bool {
    forall|i: int| 0 <= i < g.size() ==> (#[trigger] g.kinds@[i]) is One || g.kinds@[i] is Bml
}

/// Appending nodes keeps the term of every existing node.
pub proof fn lemma_term_extends(g2: NodeSoA, g1: NodeSoA, i: int)
    requires
        g1.wf(),
        g2.wf(),
        extends(g2, g1),
        0 <= i < g1.size(),
    ensures
        term_of(g2, i) == term_of(g1, i),
    decreases i,
{
    assert(g2.kinds@.subrange(0, g1.size() as int)[i] == g2.kinds@[i]);
    assert(g2.lefts@.subrange(0, g1.size() as int)[i] == g2.lefts@[i]);
    assert(g2.rights@.subrange(0, g1.size() as int)[i] == g2.rights@[i]);
    if g1.kinds@[i] is Bml {
        let l = g1.lefts@[i] as int;
        let r = g1.rights@[i] as int;
        if 0 <= l < i && 0 <= r < i {
            lemma_term_extends(g2, g1, l);
            lemma_term_extends(g2, g1, r);
        }
    }
}

/// Builds BML terms for standard operations.
pub struct BMLTransformer {
    soa: NodeSoA,
}

impl BMLTransformer {
    /// The graph built so far.
    pub closed spec fn graph(&self) -> NodeSoA {
        self.soa
    }

    /// The graph is well formed, acyclic, and its ids fit `u32`.
    pub closed spec fn wf(&self) -> bool {
        &&& self.soa.wf()
        &&& self.soa.children_before()
        &&& self.soa.size() <= u32::MAX
    }

    /// `self` after an operation that appended `k` nodes, all `1` or `BML`,
    /// keeping the existing ones.
    pub open spec fn grew(&self, old: BMLTransformer, k: nat) -> bool {
        &&& self.wf()
        &&& extends(self.graph(), old.graph())
        &&& self.graph().size() == old.graph().size() + k
        &&& forall|i: int|
            0 <= i < old.graph().size() ==> #[trigger] term_of(self.graph(), i) == term_of(
                old.graph(),
                i,
            )
        &&& pure_grammar(old.graph()) ==> pure_grammar(self.graph())
    }

    /// An empty transformer.
    pub fn new() -> (t: Self)
        ensures
            t.wf(),
            t.graph().size() == 0,
            pure_grammar(t.graph()),
    {
        BMLTransformer { soa: NodeSoA::new() }
    }

    /// An empty transformer with room for `capacity` nodes.
    pub fn with_capacity(capacity: usize) -> (t: Self)
        ensures
            t.wf(),
            t.graph().size() == 0,
            pure_grammar(t.graph()),
    {
        BMLTransformer { soa: NodeSoA::with_capacity(capacity) }
    }

    /// The graph built so far.
    pub fn soa(&self) -> (g: &NodeSoA)
        ensures
            *g == self.graph(),
    {
        &self.soa
    }

    /// The graph, consuming the transformer.
    pub fn into_soa(self) -> (g: NodeSoA)
        ensures
            g == self.graph(),
    {
        self.soa
    }

    proof fn lemma_grew_by_push(&self, old: BMLTransformer, k: NodeKind, l: NodeId, r: NodeId)
        requires
            old.wf(),
            self.soa.pushed(old.soa, k, l, r),
            k is One || k is Bml,
            k is Bml ==> l < old.soa.size() && r < old.soa.size(),
            old.soa.size() < u32::MAX,
        ensures
            self.grew(old, 1),
    {
        assert(self.soa.kinds@.subrange(0, old.soa.size() as int) =~= old.soa.kinds@);
        assert(self.soa.lefts@.subrange(0, old.soa.size() as int) =~= old.soa.lefts@);
        assert(self.soa.rights@.subrange(0, old.soa.size() as int) =~= old.soa.rights@);
        assert forall|i: int| 0 <= i < old.graph().size() implies #[trigger] term_of(
            self.graph(),
            i,
        ) == term_of(old.graph(), i) by {
            lemma_term_extends(self.soa, old.soa, i);
        }
    }

    /// Appends the constant `1`.
    pub fn one(&mut self) -> (id: NodeId)
        requires
            old(self).wf(),
            old(self).graph().size() + 1 <= u32::MAX,
        ensures
            final(self).grew(*old(self), 1),
            id == old(self).graph().size(),
            term_of(final(self).graph(), id as int) == Term::One,
    {
        let id = self.soa.push_one();
        proof {
            self.lemma_grew_by_push(*old(self), NodeKind::One, 0, 0);
        }
        id
    }

    /// Appends `BML(left, right)`.
    pub fn bml(&mut self, left: NodeId, right: NodeId) -> (id: NodeId)
        requires
            old(self).wf(),
            old(self).graph().size() + 1 <= u32::MAX,
            left < old(self).graph().size(),
            right < old(self).graph().size(),
        ensures
            final(self).grew(*old(self), 1),
            id == old(self).graph().size(),
            term_of(final(self).graph(), id as int) == t_bml(
                term_of(old(self).graph(), left as int),
                term_of(old(self).graph(), right as int),
            ),
    {
        let id = self.soa.push_bml(left, right);
        proof {
            self.lemma_grew_by_push(*old(self), NodeKind::Bml, left, right);
            let g = self.soa;
            assert(g.kinds@[id as int] is Bml);
            assert(g.lefts@[id as int] == left && g.rights@[id as int] == right);
            assert(term_of(g, left as int) == term_of(old(self).soa, left as int));
            assert(term_of(g, right as int) == term_of(old(self).soa, right as int));
        }
        id
    }

    /// `2 = bml(1, 1)`.
    pub fn two(&mut self) -> (id: NodeId)
        requires
            old(self).wf(),
            old(self).graph().size() + 3 <= u32::MAX,
        ensures
            final(self).grew(*old(self), 3),
            id < final(self).graph().size(),
            term_of(final(self).graph(), id as int) == t_two(),
    {
        let ghost t0 = *self;
        let one = self.one();
        let ghost t1 = *self;
        let one2 = self.one();
        let ghost t2 = *self;
        let r = self.bml(one, one2);
        let ghost t3 = *self;
        proof {
            law_growth_composes(t0, t1, t2, 1, 1);
            law_growth_composes(t0, t2, t3, 2, 1);
        }
        r
    }

    /// `2^x = bml(x, 1)`.
    pub fn exp2(&mut self, x: NodeId) -> (id: NodeId)
        requires
            old(self).wf(),
            old(self).graph().size() + 2 <= u32::MAX,
            x < old(self).graph().size(),
        ensures
            final(self).grew(*old(self), 2),
            id < final(self).graph().size(),
            term_of(final(self).graph(), id as int) == t_exp2(
                term_of(old(self).graph(), x as int),
            ),
    {
        let ghost t0 = *self;
        let one = self.one();
        let ghost t1 = *self;
        let r = self.bml(x, one);
        let ghost t2 = *self;
        proof {
            law_growth_composes(t0, t1, t2, 1, 1);
        }
        r
    }

    /// `log2(x) = bml(1, bml(bml(1, x), 1))`.
    pub fn log2(&mut self, x: NodeId) -> (id: NodeId)
        requires
            old(self).wf(),
            old(self).graph().size() + 6 <= u32::MAX,
            x < old(self).graph().size(),
        ensures
            final(self).grew(*old(self), 6),
            id < final(self).graph().size(),
            term_of(final(self).graph(), id as int) == t_log2(
                term_of(old(self).graph(), x as int),
            ),
    {
        let ghost t0 = *self;
        let one = self.one();
        let ghost t1 = *self;
        let one2 = self.one();
        let ghost t2 = *self;
        let one3 = self.one();
        let ghost t3 = *self;
        let inner = self.bml(one, x);
        let ghost t4 = *self;
        let inner2 = self.bml(inner, one2);
        let ghost t5 = *self;
        let r = self.bml(one3, inner2);
        let ghost t6 = *self;
        proof {
            law_growth_composes(t0, t1, t2, 1, 1);
            law_growth_composes(t0, t2, t3, 2, 1);
            law_growth_composes(t0, t3, t4, 3, 1);
            law_growth_composes(t0, t4, t5, 4, 1);
            law_growth_composes(t0, t5, t6, 5, 1);
        }
        r
    }

    /// `x - y = bml(log2(x), exp2(y))`.
    pub fn sub(&mut self, x: NodeId, y: NodeId) -> (id: NodeId)
        requires
            old(self).wf(),
            old(self).graph().size() + 9 <= u32::MAX,
            x < old(self).graph().size(),
            y < old(self).graph().size(),
        ensures
            final(self).grew(*old(self), 9),
            id < final(self).graph().size(),
            term_of(final(self).graph(), id as int) == t_sub(
                term_of(old(self).graph(), x as int),
                term_of(old(self).graph(), y as int),
            ),
    {
        let ghost t0 = *self;
        let log2_x = self.log2(x);
        let ghost t1 = *self;
        let exp2_y = self.exp2(y);
        let ghost t2 = *self;
        let r = self.bml(log2_x, exp2_y);
        let ghost t3 = *self;
        proof {
            law_growth_composes(t0, t1, t2, 6, 2);
            law_growth_composes(t0, t2, t3, 8, 1);
        }
        r
    }

    /// `-x = bml(log2(log2(1)), exp2(x))`: `log2(1) = 0` and
    /// `log2(0) = -inf`, so the result is `0 - x`.
    pub fn neg(&mut self, x: NodeId) -> (id: NodeId)
        requires
            old(self).wf(),
            old(self).graph().size() + 16 <= u32::MAX,
            x < old(self).graph().size(),
        ensures
            final(self).grew(*old(self), 16),
            id < final(self).graph().size(),
            term_of(final(self).graph(), id as int) == t_neg(
                term_of(old(self).graph(), x as int),
            ),
    {
        let ghost t0 = *self;
        let one = self.one();
        let ghost t1 = *self;
        let zero = self.log2(one);
        let ghost t2 = *self;
        let neg_zero = self.log2(zero);
        let ghost t3 = *self;
        let exp2_x = self.exp2(x);
        let ghost t4 = *self;
        let r = self.bml(neg_zero, exp2_x);
        let ghost t5 = *self;
        proof {
            law_growth_composes(t0, t1, t2, 1, 6);
            law_growth_composes(t0, t2, t3, 7, 6);
            law_growth_composes(t0, t3, t4, 13, 2);
            law_growth_composes(t0, t4, t5, 15, 1);
        }
        r
    }

    /// `x + y = x - (-y)`.
    pub fn add(&mut self, x: NodeId, y: NodeId) -> (id: NodeId)
        requires
            old(self).wf(),
            old(self).graph().size() + 25 <= u32::MAX,
            x < old(self).graph().size(),
            y < old(self).graph().size(),
        ensures
            final(self).grew(*old(self), 25),
            id < final(self).graph().size(),
            term_of(final(self).graph(), id as int) == t_add(
                term_of(old(self).graph(), x as int),
                term_of(old(self).graph(), y as int),
            ),
    {
        let ghost t0 = *self;
        let neg_y = self.neg(y);
        let ghost t1 = *self;
        let r = self.sub(x, neg_y);
        let ghost t2 = *self;
        proof {
            law_growth_composes(t0, t1, t2, 16, 9);
        }
        r
    }

    /// `1/x = exp2(-log2(x))`.
    pub fn recip(&mut self, x: NodeId) -> (id: NodeId)
        requires
            old(self).wf(),
            old(self).graph().size() + 24 <= u32::MAX,
            x < old(self).graph().size(),
        ensures
            final(self).grew(*old(self), 24),
            id < final(self).graph().size(),
            term_of(final(self).graph(), id as int) == t_recip(
                term_of(old(self).graph(), x as int),
            ),
    {
        let ghost t0 = *self;
        let log2_x = self.log2(x);
        let ghost t1 = *self;
        let neg_log2_x = self.neg(log2_x);
        let ghost t2 = *self;
        let r = self.exp2(neg_log2_x);
        let ghost t3 = *self;
        proof {
            law_growth_composes(t0, t1, t2, 6, 16);
            law_growth_composes(t0, t2, t3, 22, 2);
        }
        r
    }

    /// `x * y = exp2(log2(x) + log2(y))`.
    pub fn mul(&mut self, x: NodeId, y: NodeId) -> (id: NodeId)
        requires
            old(self).wf(),
            old(self).graph().size() + 39 <= u32::MAX,
            x < old(self).graph().size(),
            y < old(self).graph().size(),
        ensures
            final(self).grew(*old(self), 39),
            id < final(self).graph().size(),
            term_of(final(self).graph(), id as int) == t_mul(
                term_of(old(self).graph(), x as int),
                term_of(old(self).graph(), y as int),
            ),
    {
        let ghost t0 = *self;
        let log2_x = self.log2(x);
        let ghost t1 = *self;
        let log2_y = self.log2(y);
        let ghost t2 = *self;
        let sum = self.add(log2_x, log2_y);
        let ghost t3 = *self;
        let r = self.exp2(sum);
        let ghost t4 = *self;
        proof {
            law_growth_composes(t0, t1, t2, 6, 6);
            law_growth_composes(t0, t2, t3, 12, 25);
            law_growth_composes(t0, t3, t4, 37, 2);
        }
        r
    }

    /// `x / y = x * (1/y)`.
    pub fn div(&mut self, x: NodeId, y: NodeId) -> (id: NodeId)
        requires
            old(self).wf(),
            old(self).graph().size() + 63 <= u32::MAX,
            x < old(self).graph().size(),
            y < old(self).graph().size(),
        ensures
            final(self).grew(*old(self), 63),
            id < final(self).graph().size(),
            term_of(final(self).graph(), id as int) == t_div(
                term_of(old(self).graph(), x as int),
                term_of(old(self).graph(), y as int),
            ),
    {
        let ghost t0 = *self;
        let recip_y = self.recip(y);
        let ghost t1 = *self;
        let r = self.mul(x, recip_y);
        let ghost t2 = *self;
        proof {
            law_growth_composes(t0, t1, t2, 24, 39);
        }
        r
    }

    /// `x^y = exp2(y * log2(x))`.
    pub fn pow(&mut self, x: NodeId, y: NodeId) -> (id: NodeId)
        requires
            old(self).wf(),
            old(self).graph().size() + 47 <= u32::MAX,
            x < old(self).graph().size(),
            y < old(self).graph().size(),
        ensures
            final(self).grew(*old(self), 47),
            id < final(self).graph().size(),
            term_of(final(self).graph(), id as int) == t_pow(
                term_of(old(self).graph(), x as int),
                term_of(old(self).graph(), y as int),
            ),
    {
        let ghost t0 = *self;
        let log2_x = self.log2(x);
        let ghost t1 = *self;
        let product = self.mul(y, log2_x);
        let ghost t2 = *self;
        let r = self.exp2(product);
        let ghost t3 = *self;
        proof {
            law_growth_composes(t0, t1, t2, 6, 39);
            law_growth_composes(t0, t2, t3, 45, 2);
        }
        r
    }
}

impl Default for BMLTransformer {
    fn default() -> (t: Self)
        ensures
            t.wf(),
            t.graph().size() == 0,
            pure_grammar(t.graph()),
    {
        Self::new()
    }
}

/// Growing is transitive: a transformer that grew by `a` nodes and then
/// by `b` nodes grew by `a + b` nodes.
pub proof fn law_growth_composes(t0: BMLTransformer, t1: BMLTransformer, t2: BMLTransformer, a: nat, b: nat)
    requires
        t1.grew(t0, a),
        t2.grew(t1, b),
    ensures
        t2.grew(t0, a + b),
{
    let g0 = t0.graph();
    let g1 = t1.graph();
    let g2 = t2.graph();
    assert(g2.kinds@.subrange(0, g0.size() as int) =~= g1.kinds@.subrange(0, g0.size() as int));
    assert(g2.lefts@.subrange(0, g0.size() as int) =~= g1.lefts@.subrange(0, g0.size() as int));
    assert(g2.rights@.subrange(0, g0.size() as int) =~= g1.rights@.subrange(0, g0.size() as int));
    assert forall|i: int| 0 <= i < g0.size() implies #[trigger] term_of(g2, i) == term_of(g0, i) by {
        assert(term_of(g2, i) == term_of(g1, i));
    }
}

} // verus!
