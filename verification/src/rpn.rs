//! Linearization of a BML DAG into Reverse Polish Notation.
//!
//! The DAG is walked in post-order. A node reached a second time (a
//! sub-tree shared through hash consing) whose value is still on the
//! stack is not emitted again: a `Dup` (when it is on top) or a `Pick`
//! copies it. A shared node whose value was already consumed is emitted
//! again, so the program always computes the value of the DAG.
use crate::ast::{NodeId, NodeKind};
use crate::soa::NodeSoA;
use crate::transformer::{t_bml, term_of, Term};
use vstd::prelude::*;

verus! {

/// One RPN instruction.
#[derive(Debug, Clone, Copy, PartialEq, Eq, Structural)]
pub enum RpnOp {
    /// Pushes the constant `1`.
    One,
    /// Pushes the constant `0`.
    Zero,
    /// Pops `a, b` and pushes `bml(a, b)`.
    Bml,
    /// Duplicates the top of the stack.
    Dup,
    /// Pushes input variable `id`.
    Var(u32),
    /// Pushes constant `id` of the weight pool.
    Const(u32),
    /// Pops an offset and pushes the value at `base + offset`.
    VarIndexed {
        /// Base index.
        base: u32,
    },
    /// Pops an offset and a value and stores the value at `slot[offset]`.
    StoreResult {
        /// Slot of the result buffer.
        slot: u32,
    },
    /// Repeats the `body_len` following instructions `count` times.
    Loop {
        /// Number of repetitions.
        count: u32,
        /// Number of instructions of the body.
        body_len: u32,
    },
    /// Pops two values and pushes their sum.
    FAdd,
    /// Pops two values and pushes their product.
    FMul,
    /// Copies the value `depth` places below the top onto the top.
    Pick {
        /// Depth of the copied value (`0` is the top).
        depth: u32,
    },
    /// Discards the top of the stack.
    Drop,
    /// Swaps the two topmost values.
    Swap,
}

/// An RPN program: a flat sequence of instructions.
#[derive(Debug, Clone)]
pub struct RpnProgram {
    /// Instructions, in execution order.
    pub ops: Vec<RpnOp>,
}

impl RpnProgram {
    /// Creates an empty program.
    pub fn new() -> (p: Self)
        ensures
            p.ops@ == Seq::<RpnOp>::empty(),
    {
        RpnProgram { ops: Vec::new() }
    }

    /// Number of instructions.
    pub fn len(&self) -> (n: usize)
        ensures
            n == self.ops@.len(),
    {
        self.ops.len()
    }

    /// `true` iff the program has no instructions.
    pub fn is_empty(&self) -> (b: bool)
        ensures
            b == (self.ops@.len() == 0),
    {
        self.ops.len() == 0
    }

    /// Appends an instruction.
    pub fn push(&mut self, op: RpnOp)
        ensures
            final(self).ops@ == old(self).ops@.push(op),
    {
        self.ops.push(op);
    }
}

/// How many places below the top of the stack `ms` (the node whose value
/// each stack entry holds, top last) the topmost entry of node `id` lies.
pub open spec fn find_top(ms: Seq<NodeId>, id: NodeId) -> Option<nat>
    decreases ms.len(),
{
    if ms.len() == 0 {
        None
    } else if ms.last() == id {
        Some(0)
    } else {
        match find_top(ms.drop_last(), id) {
            Some(d) => Some(d + 1),
            None => None,
        }
    }
}

/// The value of node `id` is on the stack `ms`, at a depth a `Pick` can
/// name.
pub open spec fn reusable(ms: Seq<NodeId>, id: NodeId) -> bool {
    find_top(ms, id) matches Some(d) && d <= u32::MAX
}

/// The instruction that copies the value `d` places below the top.
pub open spec fn reuse_op(d: nat) -> RpnOp {
    if d == 0 {
        RpnOp::Dup
    } else {
        RpnOp::Pick { depth: d as u32 }
    }
}

/// The instruction that a leaf or `Bml` node contributes once its
/// children have been emitted.
pub open spec fn node_op(kind: NodeKind) -> RpnOp {
    match kind {
        NodeKind::One => RpnOp::One,
        NodeKind::Zero => RpnOp::Zero,
        NodeKind::Var(v) => RpnOp::Var(v),
        NodeKind::Const(c) => RpnOp::Const(c),
        NodeKind::Bml => RpnOp::Bml,
    }
}

/// The nodes whose values are on the stack after emitting node `id` on
/// the stack `ms`: one more entry, `id`, unless `fuel` ran out.
pub open spec fn emit_stack(soa: NodeSoA, id: NodeId, ms: Seq<NodeId>, fuel: nat) -> Seq<NodeId> {
    if reusable(ms, id) || fuel > 0 {
        ms.push(id)
    } else {
        ms
    }
}

/// Post-order emission of node `id` when the stack holds the values of
/// the nodes `ms` (top last): a node whose value is on the stack is
/// copied (`Dup` from the top, `Pick` from below); otherwise, for `Bml`,
/// the children are emitted left then right and `Bml` follows, and a leaf
/// gives its own instruction. `fuel` bounds the recursion and is never
/// exhausted on an acyclic DAG when it exceeds the node's index.
pub open spec fn emit_spec(soa: NodeSoA, id: NodeId, ms: Seq<NodeId>, fuel: nat) -> Seq<RpnOp>
    decreases fuel,
{
    if reusable(ms, id) {
        seq![reuse_op(find_top(ms, id)->0)]
    } else if fuel == 0 {
        Seq::empty()
    } else {
        let idx = id as int;
        match soa.kinds@[idx] {
            NodeKind::Bml => {
                let l = soa.lefts@[idx];
                let r = soa.rights@[idx];
                let f = (fuel - 1) as nat;
                emit_spec(soa, l, ms, f) + emit_spec(soa, r, emit_stack(soa, l, ms, f), f) + seq![
                    RpnOp::Bml,
                ]
            },
            k => seq![node_op(k)],
        }
    }
}

/// The RPN program of the DAG rooted at `root`: the post-order emission
/// from the root on an empty stack.
pub open spec fn linearize_spec(soa: NodeSoA, root: NodeId) -> Seq<RpnOp> {
    emit_spec(soa, root, Seq::empty(), soa.size())
}

/// Linearizes the DAG `soa` rooted at `root` into an RPN program: post-order,
/// copying the value of a node reached again while it is on the stack.
pub fn linearize(soa: &NodeSoA, root: NodeId) -> (program: RpnProgram)
    requires
        soa.wf(),
        soa.children_in_range(),
        root < soa.size(),
    ensures
        program.ops@ == linearize_spec(*soa, root),
{
    let mut program = RpnProgram::new();
    let mut ms: Vec<NodeId> = Vec::new();
    emit(soa, root, &mut ms, &mut program, soa.len());
    assert(program.ops@ =~= linearize_spec(*soa, root));
    program
}

/// Depth below the top of the topmost entry `id` of `ms`.
fn find_on_stack(ms: &Vec<NodeId>, id: NodeId) -> (r: Option<usize>)
    ensures
        match r {
            Some(d) => find_top(ms@, id) == Some(d as nat),
            None => find_top(ms@, id) is None,
        },
{
    let n = ms.len();
    let mut i: usize = n;
    assert(ms@.subrange(0, n as int) =~= ms@);
    while i > 0
        invariant
            i <= n,
            n == ms@.len(),
            find_top(ms@, id) == match find_top(ms@.subrange(0, i as int), id) {
                Some(d) => Some(d + (n - i) as nat),
                None => None::<nat>,
            },
        decreases i,
    {
        let ghost sub = ms@.subrange(0, i as int);
        assert(sub.drop_last() =~= ms@.subrange(0, i - 1));
        if ms[i - 1] == id {
            return Some(n - i);
        }
        i = i - 1;
    }
    None
}

/// Emits node `id` in post-order (see [`emit_spec`]); `ms` tracks the
/// node whose value each stack entry holds.
fn emit(soa: &NodeSoA, id: NodeId, ms: &mut Vec<NodeId>, program: &mut RpnProgram, fuel: usize)
    requires
        soa.wf(),
        soa.children_in_range(),
        id < soa.size(),
    ensures
        final(program).ops@ == old(program).ops@ + emit_spec(*soa, id, old(ms)@, fuel as nat),
        final(ms)@ == emit_stack(*soa, id, old(ms)@, fuel as nat),
    decreases fuel,
{
    let found = find_on_stack(ms, id);
    if let Some(d) = found {
        if d <= u32::MAX as usize {
            if d == 0 {
                program.push(RpnOp::Dup);
            } else {
                program.push(RpnOp::Pick { depth: d as u32 });
            }
            ms.push(id);
            return;
        }
    }
    if fuel == 0 {
        return;
    }
    let idx = id as usize;
    match soa.kinds[idx] {
        NodeKind::One => program.push(RpnOp::One),
        NodeKind::Zero => program.push(RpnOp::Zero),
        NodeKind::Var(var_id) => program.push(RpnOp::Var(var_id)),
        NodeKind::Const(const_id) => program.push(RpnOp::Const(const_id)),
        NodeKind::Bml => {
            let ghost p0 = program.ops@;
            let ghost m0 = ms@;
            let n0 = ms.len();
            let l = soa.lefts[idx];
            let r = soa.rights[idx];
            emit(soa, l, ms, program, fuel - 1);
            emit(soa, r, ms, program, fuel - 1);
            program.push(RpnOp::Bml);
            assert(program.ops@ =~= p0 + emit_spec(*soa, id, m0, fuel as nat));
            let ghost m2 = ms@;
            assert(m2.subrange(0, n0 as int) =~= m0);
            while ms.len() > n0
                invariant
                    n0 <= ms@.len() <= m2.len(),
                    ms@ == m2.subrange(0, ms@.len() as int),
                    m2.subrange(0, n0 as int) == m0,
                decreases ms@.len(),
            {
                ms.pop();
            }
        },
    }
    ms.push(id);
}

/// Stack depth after one instruction of a linearized program, from depth
/// `d`; `None` when the instruction would find too few values (`Dup` needs
/// one, `Pick` one more than its depth, `Bml` two) or is not one that
/// linearization emits.
pub open spec fn step_depth(op: RpnOp, d: int) -> Option<int> {
    match op {
        RpnOp::One | RpnOp::Zero | RpnOp::Var(_) | RpnOp::Const(_) => Some(d + 1),
        RpnOp::Dup => if d >= 1 {
            Some(d + 1)
        } else {
            None
        },
        RpnOp::Pick { depth } => if d >= depth + 1 {
            Some(d + 1)
        } else {
            None
        },
        RpnOp::Bml => if d >= 2 {
            Some(d - 1)
        } else {
            None
        },
        _ => None,
    }
}

/// Stack depth after running `ops` from depth `d`, or `None` if some
/// instruction finds too few values.
pub open spec fn run_depth(ops: Seq<RpnOp>, d: int) -> Option<int>
    decreases ops.len(),
{
    if ops.len() == 0 {
        Some(d)
    } else {
        match run_depth(ops.drop_last(), d) {
            None => None,
            Some(d2) => step_depth(ops.last(), d2),
        }
    }
}

/// The stack of terms after running `op` on the stack `s` (top last), or
/// `None` when it finds too few values: instructions compute terms instead
/// of numbers.
pub open spec fn sym_step(op: RpnOp, s: Seq<Term>) -> Option<Seq<Term>> {
    match op {
        RpnOp::One => Some(s.push(Term::One)),
        RpnOp::Zero => Some(s.push(Term::Zero)),
        RpnOp::Var(v) => Some(s.push(Term::Var(v))),
        RpnOp::Const(c) => Some(s.push(Term::Const(c))),
        RpnOp::Dup => if s.len() >= 1 {
            Some(s.push(s.last()))
        } else {
            None
        },
        RpnOp::Pick { depth } => if depth < s.len() {
            Some(s.push(s[s.len() - 1 - depth]))
        } else {
            None
        },
        RpnOp::Bml => if s.len() >= 2 {
            Some(s.subrange(0, s.len() - 2).push(t_bml(s[s.len() - 2], s[s.len() - 1])))
        } else {
            None
        },
        _ => None,
    }
}

/// The stack of terms after running `ops` on `s`.
pub open spec fn sym_run(ops: Seq<RpnOp>, s: Seq<Term>) -> Option<Seq<Term>>
    decreases ops.len(),
{
    if ops.len() == 0 {
        Some(s)
    } else {
        match sym_run(ops.drop_last(), s) {
            None => None,
            Some(s2) => sym_step(ops.last(), s2),
        }
    }
}

proof fn lemma_sym_concat(a: Seq<RpnOp>, b: Seq<RpnOp>, s: Seq<Term>, sa: Seq<Term>)
    requires
        sym_run(a, s) == Some(sa),
    ensures
        sym_run(a + b, s) == sym_run(b, sa),
    decreases b.len(),
{
    if b.len() == 0 {
        assert(a + b =~= a);
    } else {
        assert((a + b).drop_last() =~= a + b.drop_last());
        lemma_sym_concat(a, b.drop_last(), s, sa);
    }
}

proof fn lemma_sym_single(op: RpnOp, s: Seq<Term>)
    ensures
        sym_run(seq![op], s) == sym_step(op, s),
{
    assert(seq![op].drop_last() =~= Seq::<RpnOp>::empty());
    reveal_with_fuel(sym_run, 2);
}

proof fn lemma_find_top(ms: Seq<NodeId>, id: NodeId)
    ensures
        find_top(ms, id) matches Some(d) ==> d < ms.len() && ms[ms.len() - 1 - d] == id,
    decreases ms.len(),
{
    if ms.len() > 0 && ms.last() != id {
        lemma_find_top(ms.drop_last(), id);
    }
}

/// Each stack entry holds the term of the node `ms` names for it.
pub open spec fn stack_holds(soa: NodeSoA, ms: Seq<NodeId>, s: Seq<Term>) -> bool {
    &&& s.len() == ms.len()
    &&& forall|i: int| 0 <= i < s.len() ==> #[trigger] s[i] == term_of(soa, ms[i] as int)
}

/// Emitting node `id` pushes its term on the stack and records `id` on
/// top of `ms`.
proof fn lemma_emit_sym(soa: NodeSoA, id: NodeId, ms: Seq<NodeId>, fuel: nat, s: Seq<Term>)
    requires
        soa.wf(),
        soa.children_before(),
        id < soa.size(),
        id < fuel,
        stack_holds(soa, ms, s),
    ensures
        sym_run(emit_spec(soa, id, ms, fuel), s) == Some(s.push(term_of(soa, id as int))),
        emit_stack(soa, id, ms, fuel) == ms.push(id),
    decreases fuel,
{
    let idx = id as int;
    if reusable(ms, id) {
        let d = find_top(ms, id)->0;
        lemma_find_top(ms, id);
        lemma_sym_single(reuse_op(d), s);
        assert(s[s.len() - 1 - d] == term_of(soa, idx));
        if d == 0 {
            assert(s.last() == s[s.len() - 1 - d]);
        }
    } else {
        let f = (fuel - 1) as nat;
        match soa.kinds@[idx] {
            NodeKind::Bml => {
                let l = soa.lefts@[idx];
                let r = soa.rights@[idx];
                assert(soa.kinds@[idx] is Bml);
                assert(l < id && r < id);
                let l_ops = emit_spec(soa, l, ms, f);
                lemma_emit_sym(soa, l, ms, f, s);
                let sl = s.push(term_of(soa, l as int));
                let ml = ms.push(l);
                assert(stack_holds(soa, ml, sl)) by {
                    assert forall|i: int| 0 <= i < sl.len() implies #[trigger] sl[i] == term_of(soa, ml[i] as int) by {
                        if i < s.len() {
                            assert(sl[i] == s[i] && ml[i] == ms[i]);
                        }
                    }
                }
                lemma_emit_sym(soa, r, ml, f, sl);
                let r_ops = emit_spec(soa, r, ml, f);
                let slr = sl.push(term_of(soa, r as int));
                lemma_sym_concat(l_ops, r_ops, s, sl);
                lemma_sym_concat(l_ops + r_ops, seq![RpnOp::Bml], s, slr);
                lemma_sym_single(RpnOp::Bml, slr);
                assert(slr.subrange(0, slr.len() - 2) =~= s);
                assert(term_of(soa, idx) == t_bml(term_of(soa, l as int), term_of(soa, r as int)));
                assert(emit_spec(soa, id, ms, fuel) == l_ops + r_ops + seq![RpnOp::Bml]);
            },
            k => {
                lemma_sym_single(node_op(k), s);
            },
        }
    }
}

/// The RPN program of an acyclic DAG computes the term of its root: run
/// on an empty stack, it leaves exactly that term.
pub proof fn law_linearized_program_computes_the_dag(soa: NodeSoA, root: NodeId)
    requires
        soa.wf(),
        soa.children_before(),
        root < soa.size(),
    ensures
        sym_run(linearize_spec(soa, root), Seq::empty()) == Some(seq![term_of(soa, root as int)]),
{
    lemma_emit_sym(soa, root, Seq::empty(), soa.size(), Seq::empty());
    assert(Seq::<Term>::empty().push(term_of(soa, root as int)) =~= seq![term_of(soa, root as int)]);
}

proof fn lemma_sym_depth(ops: Seq<RpnOp>, s: Seq<Term>, s2: Seq<Term>)
    requires
        sym_run(ops, s) == Some(s2),
    ensures
        run_depth(ops, s.len() as int) == Some(s2.len() as int),
    decreases ops.len(),
{
    if ops.len() == 0 {
    } else {
        match sym_run(ops.drop_last(), s) {
            Some(s1) => {
                lemma_sym_depth(ops.drop_last(), s, s1);
                assert(sym_step(ops.last(), s1) == Some(s2));
                match ops.last() {
                    RpnOp::Bml => {
                        assert(s2.len() == s1.len() - 1);
                    },
                    _ => {},
                }
            },
            None => {},
        }
    }
}

/// The program of an acyclic DAG is safe to run on an empty stack: no
/// `Dup` finds an empty stack, no `Pick` reaches below the bottom, no
/// `Bml` finds fewer than two values, and exactly one value (the root's)
/// is left.
pub proof fn law_linearized_program_leaves_one_value(soa: NodeSoA, root: NodeId)
    requires
        soa.wf(),
        soa.children_before(),
        root < soa.size(),
    ensures
        run_depth(linearize_spec(soa, root), 0) == Some(1int),
{
    law_linearized_program_computes_the_dag(soa, root);
    lemma_sym_depth(linearize_spec(soa, root), Seq::empty(), seq![term_of(soa, root as int)]);
}

impl Default for RpnProgram {
    fn default() -> (p: Self)
        ensures
            p.ops@ == Seq::<RpnOp>::empty(),
    {
        RpnProgram::new()
    }
}

} // verus!
