//! Control flow of the reference evaluator of RPN programs.
//!
//! The reference evaluator runs a program from its first instruction to
//! its last. `Loop { count, body_len }` runs the `body_len` instructions
//! after it `count` times and resumes after them; loops nest at most two
//! deep. Inside a loop body, a loop's end may lie past the body's end: the
//! body then resumes after the inner loop, which ends it. Running a third
//! level of loops, or an instruction past the end of the program inside a
//! body, stops the evaluation (`Flow::Abort`). Which instruction runs next
//! never depends on the values on the stack: `ProgramDriver` hands the
//! instructions out one at a time and the caller does the arithmetic.
//!
//! A single fragment is run the same way, except that its loops do not
//! nest: a loop inside a loop body stops the run. `FragmentDriver` hands
//! out the steps of such a run.
use crate::ast::NodeId;
use crate::fragment::concat_all;
use crate::rpn::{linearize_spec, run_depth, step_depth, RpnOp};
use crate::soa::NodeSoA;
use vstd::prelude::*;

verus! {

/// One step of the reference evaluator.
#[derive(Debug, Clone, Copy, PartialEq, Eq, Structural)]
pub enum Flow {
    /// Run this instruction (never a `Loop`) at the top level.
    Exec(RpnOp),
    /// Run this instruction (never a `Loop`) inside a loop body, where
    /// `VarIndexed` has no value to push but `NaN`.
    ExecInLoop(RpnOp),
    /// The program cannot be run on: a third level of loops, or an
    /// instruction past the end inside a loop body.
    Abort,
}

/// `s` ends the evaluation.
pub open spec fn aborted(s: Seq<Flow>) -> bool {
    s.len() > 0 && s.last() == Flow::Abort
}

/// `a`, then `b` unless `a` stopped the evaluation.
pub open spec fn then(a: Seq<Flow>, b: Seq<Flow>) -> Seq<Flow> {
    if aborted(a) {
        a
    } else {
        a + b
    }
}

/// Steps of the top level from instruction `i` on.
pub open spec fn top(ops: Seq<RpnOp>, i: int) -> Seq<Flow>
    decreases 4int, if i < ops.len() { ops.len() - i } else { 0 },
{
    if i < 0 || i >= ops.len() {
        Seq::empty()
    } else {
        match ops[i] {
            RpnOp::Loop { count, body_len } => {
                let be = i + 1 + body_len;
                then(outer_passes(ops, i + 1, be, 0, count as int), top(ops, be))
            },
            op => seq![Flow::Exec(op)] + top(ops, i + 1),
        }
    }
}

/// Steps of passes `k` to `count - 1` of a first-level loop whose body is
/// `[bs, be)`.
pub open spec fn outer_passes(ops: Seq<RpnOp>, bs: int, be: int, k: int, count: int) -> Seq<Flow>
    decreases 3int, count - k,
{
    if k >= count || k < 0 {
        Seq::empty()
    } else {
        then(outer_body(ops, bs, be), outer_passes(ops, bs, be, k + 1, count))
    }
}

/// Steps of a first-level loop body from instruction `j` to `end`.
pub open spec fn outer_body(ops: Seq<RpnOp>, j: int, end: int) -> Seq<Flow>
    decreases 2int, if j < end { end - j } else { 0 },
{
    if j >= end || j < 0 {
        Seq::empty()
    } else if j >= ops.len() {
        seq![Flow::Abort]
    } else {
        match ops[j] {
            RpnOp::Loop { count, body_len } => {
                let be = j + 1 + body_len;
                then(inner_passes(ops, j + 1, be, 0, count as int), outer_body(ops, be, end))
            },
            op => seq![Flow::ExecInLoop(op)] + outer_body(ops, j + 1, end),
        }
    }
}

/// Steps of passes `k` to `count - 1` of a second-level loop whose body
/// is `[bs, be)`.
pub open spec fn inner_passes(ops: Seq<RpnOp>, bs: int, be: int, k: int, count: int) -> Seq<Flow>
    decreases 1int, count - k,
{
    if k >= count || k < 0 {
        Seq::empty()
    } else {
        then(inner_body(ops, bs, be), inner_passes(ops, bs, be, k + 1, count))
    }
}

/// Steps of a second-level loop body from instruction `k` to `end`.
pub open spec fn inner_body(ops: Seq<RpnOp>, k: int, end: int) -> Seq<Flow>
    decreases 0int, end - k,
{
    if k >= end || k < 0 {
        Seq::empty()
    } else if k >= ops.len() {
        seq![Flow::Abort]
    } else {
        match ops[k] {
            RpnOp::Loop { .. } => seq![Flow::Abort],
            op => seq![Flow::ExecInLoop(op)] + inner_body(ops, k + 1, end),
        }
    }
}

/// Steps of evaluating the program `ops`.
pub open spec fn evaluation_steps(ops: Seq<RpnOp>) -> Seq<Flow> {
    top(ops, 0)
}

proof fn lemma_then_assoc(a: Seq<Flow>, b: Seq<Flow>, c: Seq<Flow>)
    ensures
        then(then(a, b), c) == then(a, then(b, c)),
{
    if !aborted(a) {
        if b.len() == 0 {
            assert(a + b =~= a);
            assert(then(b, c) == c);
        } else if aborted(b) {
            assert((a + b).last() == b.last());
        } else {
            assert((a + b).last() == b.last());
            assert(a + b + c =~= a + (b + c));
        }
    }
}

proof fn lemma_then_exec(f: Flow, r: Seq<Flow>, x: Seq<Flow>)
    requires
        f != Flow::Abort,
    ensures
        then(seq![f] + r, x) == seq![f] + then(r, x),
{
    let e = seq![f];
    if r.len() == 0 {
        assert(e + r =~= e);
        assert(e + r + x =~= e + x);
    } else {
        assert((e + r).last() == r.last());
        if !aborted(r) {
            assert(e + r + x =~= e + (r + x));
        }
    }
}

proof fn lemma_then_empty(x: Seq<Flow>)
    ensures
        then(Seq::empty(), x) == x,
        then(x, Seq::empty()) == x,
{
    assert(Seq::<Flow>::empty() + x =~= x);
    assert(x + Seq::<Flow>::empty() =~= x);
}

/// A loop pass being run: body `[start, end)`, next instruction `pc`,
/// pass `iter` of `count`.
#[derive(Debug, Clone, Copy)]
struct Pass {
    start: u128,
    end: u128,
    pc: u128,
    iter: u32,
    count: u32,
}

/// Hands out the steps of evaluating a program.
#[derive(Debug)]
pub struct ProgramDriver {
    pc: u128,
    outer: Option<Pass>,
    inner: Option<Pass>,
    done: bool,
}

spec fn outer_rest(ops: Seq<RpnOp>, p: Option<Pass>) -> Seq<Flow> {
    match p {
        Some(p) => then(
            outer_body(ops, p.pc as int, p.end as int),
            outer_passes(ops, p.start as int, p.end as int, p.iter + 1, p.count as int),
        ),
        None => Seq::empty(),
    }
}

spec fn inner_rest(ops: Seq<RpnOp>, p: Option<Pass>) -> Seq<Flow> {
    match p {
        Some(p) => then(
            inner_body(ops, p.pc as int, p.end as int),
            inner_passes(ops, p.start as int, p.end as int, p.iter + 1, p.count as int),
        ),
        None => Seq::empty(),
    }
}

spec fn pass_ok(p: Option<Pass>) -> bool {
    match p {
        Some(p) => p.iter < p.count,
        None => true,
    }
}

spec fn passes_left(p: Option<Pass>) -> int {
    match p {
        Some(p) => p.count - p.iter,
        None => 0,
    }
}

spec fn body_left(p: Option<Pass>) -> int {
    match p {
        Some(p) => if p.pc < p.end {
            p.end - p.pc
        } else {
            0
        },
        None => 0,
    }
}

impl ProgramDriver {
    /// Steps still to be handed out when evaluating `ops`.
    pub closed spec fn remaining(&self, ops: Seq<RpnOp>) -> Seq<Flow> {
        if self.done {
            Seq::empty()
        } else {
            then(inner_rest(ops, self.inner), then(outer_rest(ops, self.outer), top(ops, self.pc as int)))
        }
    }

    /// The driver's passes are consistent.
    pub closed spec fn wf(&self) -> bool {
        &&& pass_ok(self.outer)
        &&& pass_ok(self.inner)
        &&& self.inner is Some ==> self.outer is Some
    }

    /// A driver for evaluating `ops` from the start.
    pub fn new(ops: &[RpnOp]) -> (d: Self)
        ensures
            d.wf(),
            d.remaining(ops@) == evaluation_steps(ops@),
    {
        let d = ProgramDriver { pc: 0, outer: None, inner: None, done: false };
        proof {
            lemma_then_empty(top(ops@, 0));
            lemma_then_empty(then(Seq::empty(), top(ops@, 0)));
        }
        d
    }

    /// The next step of evaluating `ops`, `None` once every step was handed
    /// out; after `Flow::Abort` nothing follows.
    pub fn next_step(&mut self, ops: &[RpnOp]) -> (s: Option<Flow>)
        requires
            old(self).wf(),
        ensures
            final(self).wf(),
            match s {
                Some(st) => old(self).remaining(ops@) == seq![st] + final(self).remaining(ops@),
                None => old(self).remaining(ops@) == Seq::<Flow>::empty(),
            },
            s == Some(Flow::Abort) ==> final(self).remaining(ops@) == Seq::<Flow>::empty(),
    {
        let ghost total = self.remaining(ops@);
        let len = ops.len() as u128;
        loop
            invariant
                self.wf(),
                self.remaining(ops@) == total,
                old(self).remaining(ops@) == total,
                len == ops@.len(),
                decreases
                if self.done || self.pc >= len { 0 } else { len - self.pc },
                passes_left(self.outer),
                body_left(self.outer),
                passes_left(self.inner),
                body_left(self.inner),
        {
            if self.done {
                return None;
            }
            let ghost tail = top(ops@, self.pc as int);
            let ghost orest = outer_rest(ops@, self.outer);
            if let Some(p) = self.inner {
                if p.pc >= p.end {
                    if p.iter as u64 + 1 < p.count as u64 {
                        self.inner = Some(Pass { start: p.start, end: p.end, pc: p.start, iter: p.iter + 1, count: p.count });
                        proof {
                            lemma_then_empty(inner_passes(ops@, p.start as int, p.end as int, p.iter + 1, p.count as int));
                        }
                    } else {
                        self.inner = None;
                        proof {
                            lemma_then_empty(Seq::<Flow>::empty());
                            lemma_then_empty(then(orest, tail));
                        }
                    }
                } else if p.pc >= len {
                    self.done = true;
                    proof {
                        let ib = inner_body(ops@, p.pc as int, p.end as int);
                        assert(ib == seq![Flow::Abort]);
                        assert(aborted(ib));
                        assert(aborted(inner_rest(ops@, Some(p))));
                        assert(total == seq![Flow::Abort]);
                        assert(total =~= seq![Flow::Abort] + Seq::<Flow>::empty());
                    }
                    return Some(Flow::Abort);
                } else {
                    let op = ops[p.pc as usize];
                    if let RpnOp::Loop { .. } = op {
                        self.done = true;
                        proof {
                            let ib = inner_body(ops@, p.pc as int, p.end as int);
                            assert(ib == seq![Flow::Abort]);
                            assert(aborted(inner_rest(ops@, Some(p))));
                            assert(total =~= seq![Flow::Abort] + Seq::<Flow>::empty());
                        }
                        return Some(Flow::Abort);
                    }
                    let q = Pass { start: p.start, end: p.end, pc: p.pc + 1, iter: p.iter, count: p.count };
                    self.inner = Some(q);
                    proof {
                        let r = inner_body(ops@, p.pc + 1, p.end as int);
                        let ps = inner_passes(ops@, p.start as int, p.end as int, p.iter + 1, p.count as int);
                        assert(inner_body(ops@, p.pc as int, p.end as int) == seq![Flow::ExecInLoop(op)] + r);
                        lemma_then_exec(Flow::ExecInLoop(op), r, ps);
                        lemma_then_exec(Flow::ExecInLoop(op), then(r, ps), then(orest, tail));
                        assert(total =~= seq![Flow::ExecInLoop(op)] + self.remaining(ops@));
                    }
                    return Some(Flow::ExecInLoop(op));
                }
            } else if let Some(p) = self.outer {
                proof {
                    lemma_then_empty(then(orest, tail));
                }
                if p.pc >= p.end {
                    if p.iter as u64 + 1 < p.count as u64 {
                        self.outer = Some(Pass { start: p.start, end: p.end, pc: p.start, iter: p.iter + 1, count: p.count });
                        proof {
                            lemma_then_empty(outer_passes(ops@, p.start as int, p.end as int, p.iter + 1, p.count as int));
                            lemma_then_empty(then(outer_rest(ops@, self.outer), tail));
                        }
                    } else {
                        self.outer = None;
                        proof {
                            lemma_then_empty(Seq::<Flow>::empty());
                            lemma_then_empty(tail);
                            lemma_then_empty(then(Seq::<Flow>::empty(), tail));
                        }
                    }
                } else if p.pc >= len {
                    self.done = true;
                    proof {
                        let ob = outer_body(ops@, p.pc as int, p.end as int);
                        assert(ob == seq![Flow::Abort]);
                        assert(aborted(outer_rest(ops@, Some(p))));
                        assert(total =~= seq![Flow::Abort] + Seq::<Flow>::empty());
                    }
                    return Some(Flow::Abort);
                } else {
                    let op = ops[p.pc as usize];
                    match op {
                        RpnOp::Loop { count, body_len } => {
                            let bs = p.pc + 1;
                            let be = bs + body_len as u128;
                            let q = Pass { start: p.start, end: p.end, pc: be, iter: p.iter, count: p.count };
                            self.outer = Some(q);
                            proof {
                                let ip = inner_passes(ops@, bs as int, be as int, 0, count as int);
                                let ob = outer_body(ops@, be as int, p.end as int);
                                let ps = outer_passes(ops@, p.start as int, p.end as int, p.iter + 1, p.count as int);
                                assert(outer_body(ops@, p.pc as int, p.end as int) == then(ip, ob));
                                lemma_then_assoc(ip, ob, ps);
                                lemma_then_assoc(ip, then(ob, ps), tail);
                            }
                            if count > 0 {
                                self.inner = Some(Pass { start: bs, end: be, pc: bs, iter: 0, count });
                            } else {
                                proof {
                                    lemma_then_empty(then(outer_rest(ops@, self.outer), tail));
                                }
                            }
                        },
                        _ => {
                            let q = Pass { start: p.start, end: p.end, pc: p.pc + 1, iter: p.iter, count: p.count };
                            self.outer = Some(q);
                            proof {
                                let r = outer_body(ops@, p.pc + 1, p.end as int);
                                let ps = outer_passes(ops@, p.start as int, p.end as int, p.iter + 1, p.count as int);
                                assert(outer_body(ops@, p.pc as int, p.end as int) == seq![Flow::ExecInLoop(op)] + r);
                                lemma_then_exec(Flow::ExecInLoop(op), r, ps);
                                lemma_then_exec(Flow::ExecInLoop(op), then(r, ps), tail);
                                lemma_then_empty(then(outer_rest(ops@, self.outer), tail));
                                assert(total =~= seq![Flow::ExecInLoop(op)] + self.remaining(ops@));
                            }
                            return Some(Flow::ExecInLoop(op));
                        },
                    }
                }
            } else {
                proof {
                    lemma_then_empty(tail);
                    lemma_then_empty(then(Seq::<Flow>::empty(), tail));
                }
                if self.pc >= len {
                    return None;
                }
                let op = ops[self.pc as usize];
                match op {
                    RpnOp::Loop { count, body_len } => {
                        let bs = self.pc + 1;
                        let be = bs + body_len as u128;
                        let ghost pc0 = self.pc;
                        self.pc = be;
                        if count > 0 {
                            self.outer = Some(Pass { start: bs, end: be, pc: bs, iter: 0, count });
                        }
                        proof {
                            assert(tail == then(outer_passes(ops@, bs as int, be as int, 0, count as int), top(ops@, be as int)));
                            lemma_then_empty(top(ops@, be as int));
                            lemma_then_empty(then(outer_rest(ops@, self.outer), top(ops@, be as int)));
                        }
                    },
                    _ => {
                        let ghost pc0 = self.pc;
                        self.pc = self.pc + 1;
                        proof {
                            assert(tail == seq![Flow::Exec(op)] + top(ops@, self.pc as int));
                            lemma_then_empty(top(ops@, self.pc as int));
                            lemma_then_empty(then(Seq::<Flow>::empty(), top(ops@, self.pc as int)));
                            assert(total =~= seq![Flow::Exec(op)] + self.remaining(ops@));
                        }
                        return Some(Flow::Exec(op));
                    },
                }
            }
        }
    }
}

/// Steps of running a single fragment from instruction `i` on: loops do
/// not nest there, so a loop inside a loop body stops the run, as does a
/// body that runs past the last instruction.
pub open spec fn fragment_top(ops: Seq<RpnOp>, i: int) -> Seq<Flow>
    decreases if i < ops.len() { ops.len() - i } else { 0 },
{
    if i < 0 || i >= ops.len() {
        Seq::empty()
    } else {
        match ops[i] {
            RpnOp::Loop { count, body_len } => {
                let be = i + 1 + body_len;
                then(inner_passes(ops, i + 1, be, 0, count as int), fragment_top(ops, be))
            },
            op => seq![Flow::Exec(op)] + fragment_top(ops, i + 1),
        }
    }
}

/// Steps of running the instructions `ops` of a fragment.
pub open spec fn fragment_steps(ops: Seq<RpnOp>) -> Seq<Flow> {
    fragment_top(ops, 0)
}

/// Hands out the steps of running the instructions of a fragment, where
/// loops do not nest.
#[derive(Debug)]
pub struct FragmentDriver {
    pc: u128,
    body: Option<Pass>,
    done: bool,
}

impl FragmentDriver {
    /// Steps still to be handed out when running `ops`.
    pub closed spec fn remaining(&self, ops: Seq<RpnOp>) -> Seq<Flow> {
        if self.done {
            Seq::empty()
        } else {
            then(inner_rest(ops, self.body), fragment_top(ops, self.pc as int))
        }
    }

    /// The driver's loop pass is consistent.
    pub closed spec fn wf(&self) -> bool {
        pass_ok(self.body)
    }

    /// A driver for running `ops` from the start.
    pub fn new(ops: &[RpnOp]) -> (d: Self)
        ensures
            d.wf(),
            d.remaining(ops@) == fragment_steps(ops@),
    {
        let d = FragmentDriver { pc: 0, body: None, done: false };
        proof {
            lemma_then_empty(fragment_top(ops@, 0));
        }
        d
    }

    /// The next step of running `ops`, `None` once every step was handed
    /// out; after `Flow::Abort` nothing follows.
    pub fn next_step(&mut self, ops: &[RpnOp]) -> (s: Option<Flow>)
        requires
            old(self).wf(),
        ensures
            final(self).wf(),
            match s {
                Some(st) => old(self).remaining(ops@) == seq![st] + final(self).remaining(ops@),
                None => old(self).remaining(ops@) == Seq::<Flow>::empty(),
            },
            s == Some(Flow::Abort) ==> final(self).remaining(ops@) == Seq::<Flow>::empty(),
    {
        let ghost total = self.remaining(ops@);
        let len = ops.len() as u128;
        loop
            invariant
                self.wf(),
                self.remaining(ops@) == total,
                old(self).remaining(ops@) == total,
                len == ops@.len(),
                decreases
                if self.done || self.pc >= len { 0 } else { len - self.pc },
                passes_left(self.body),
                body_left(self.body),
        {
            if self.done {
                return None;
            }
            let ghost tail = fragment_top(ops@, self.pc as int);
            if let Some(p) = self.body {
                if p.pc >= p.end {
                    if p.iter as u64 + 1 < p.count as u64 {
                        self.body = Some(Pass { start: p.start, end: p.end, pc: p.start, iter: p.iter + 1, count: p.count });
                        proof {
                            lemma_then_empty(inner_passes(ops@, p.start as int, p.end as int, p.iter + 1, p.count as int));
                        }
                    } else {
                        self.body = None;
                        proof {
                            lemma_then_empty(Seq::<Flow>::empty());
                            lemma_then_empty(tail);
                        }
                    }
                } else if p.pc >= len {
                    self.done = true;
                    proof {
                        let ib = inner_body(ops@, p.pc as int, p.end as int);
                        assert(ib == seq![Flow::Abort]);
                        assert(aborted(inner_rest(ops@, Some(p))));
                        assert(total =~= seq![Flow::Abort] + Seq::<Flow>::empty());
                    }
                    return Some(Flow::Abort);
                } else {
                    let op = ops[p.pc as usize];
                    if let RpnOp::Loop { .. } = op {
                        self.done = true;
                        proof {
                            let ib = inner_body(ops@, p.pc as int, p.end as int);
                            assert(ib == seq![Flow::Abort]);
                            assert(aborted(inner_rest(ops@, Some(p))));
                            assert(total =~= seq![Flow::Abort] + Seq::<Flow>::empty());
                        }
                        return Some(Flow::Abort);
                    }
                    self.body = Some(Pass { start: p.start, end: p.end, pc: p.pc + 1, iter: p.iter, count: p.count });
                    proof {
                        let r = inner_body(ops@, p.pc + 1, p.end as int);
                        let ps = inner_passes(ops@, p.start as int, p.end as int, p.iter + 1, p.count as int);
                        assert(inner_body(ops@, p.pc as int, p.end as int) == seq![Flow::ExecInLoop(op)] + r);
                        lemma_then_exec(Flow::ExecInLoop(op), r, ps);
                        lemma_then_exec(Flow::ExecInLoop(op), then(r, ps), tail);
                        assert(total =~= seq![Flow::ExecInLoop(op)] + self.remaining(ops@));
                    }
                    return Some(Flow::ExecInLoop(op));
                }
            } else {
                proof {
                    lemma_then_empty(tail);
                }
                if self.pc >= len {
                    return None;
                }
                let op = ops[self.pc as usize];
                match op {
                    RpnOp::Loop { count, body_len } => {
                        let bs = self.pc + 1;
                        let be = bs + body_len as u128;
                        self.pc = be;
                        if count > 0 {
                            self.body = Some(Pass { start: bs, end: be, pc: bs, iter: 0, count });
                        }
                        proof {
                            assert(tail == then(inner_passes(ops@, bs as int, be as int, 0, count as int), fragment_top(ops@, be as int)));
                            lemma_then_empty(fragment_top(ops@, be as int));
                        }
                    },
                    _ => {
                        self.pc = self.pc + 1;
                        proof {
                            assert(tail == seq![Flow::Exec(op)] + fragment_top(ops@, self.pc as int));
                            lemma_then_empty(fragment_top(ops@, self.pc as int));
                            assert(total =~= seq![Flow::Exec(op)] + self.remaining(ops@));
                        }
                        return Some(Flow::Exec(op));
                    },
                }
            }
        }
    }
}

/// No instruction of `ops` is a loop.
pub open spec fn loop_free(ops: Seq<RpnOp>) -> bool {
    forall|i: int| 0 <= i < ops.len() ==> !(#[trigger] ops[i] is Loop)
}

/// `body` written `n` times in a row.
pub open spec fn repeat_ops(body: Seq<RpnOp>, n: nat) -> Seq<RpnOp>
    decreases n,
{
    if n == 0 {
        Seq::empty()
    } else {
        body + repeat_ops(body, (n - 1) as nat)
    }
}

/// The steps that run the instructions `ops` one after the other at the
/// top level.
pub open spec fn execs(ops: Seq<RpnOp>) -> Seq<Flow> {
    Seq::new(ops.len(), |i: int| Flow::Exec(ops[i]))
}

/// `steps` with every top-level step marked as run inside a loop body.
pub open spec fn in_loop(steps: Seq<Flow>) -> Seq<Flow> {
    Seq::new(
        steps.len(),
        |i: int|
            match steps[i] {
                Flow::Exec(op) => Flow::ExecInLoop(op),
                f => f,
            },
    )
}

spec fn repeat_flows(s: Seq<Flow>, n: nat) -> Seq<Flow>
    decreases n,
{
    if n == 0 {
        Seq::empty()
    } else {
        s + repeat_flows(s, (n - 1) as nat)
    }
}

proof fn lemma_execs_not_aborted(ops: Seq<RpnOp>)
    ensures
        !aborted(execs(ops)),
        !aborted(in_loop(execs(ops))),
{
}

proof fn lemma_in_loop_repeat(s: Seq<Flow>, n: nat)
    ensures
        in_loop(repeat_flows(s, n)) == repeat_flows(in_loop(s), n),
    decreases n,
{
    if n > 0 {
        lemma_in_loop_repeat(s, (n - 1) as nat);
        assert(in_loop(s + repeat_flows(s, (n - 1) as nat)) =~= in_loop(s) + in_loop(
            repeat_flows(s, (n - 1) as nat),
        ));
    } else {
        assert(in_loop(Seq::<Flow>::empty()) =~= Seq::<Flow>::empty());
    }
}

proof fn lemma_execs_concat(a: Seq<RpnOp>, b: Seq<RpnOp>)
    ensures
        execs(a + b) == execs(a) + execs(b),
{
    assert(execs(a + b) =~= execs(a) + execs(b));
}

proof fn lemma_top_loop_free(ops: Seq<RpnOp>, i: int)
    requires
        loop_free(ops),
        0 <= i <= ops.len(),
    ensures
        top(ops, i) == execs(ops.subrange(i, ops.len() as int)),
    decreases ops.len() - i,
{
    if i < ops.len() {
        assert(!(ops[i] is Loop));
        lemma_top_loop_free(ops, i + 1);
        assert(execs(ops.subrange(i, ops.len() as int)) =~= seq![Flow::Exec(ops[i])] + execs(
            ops.subrange(i + 1, ops.len() as int),
        ));
    } else {
        assert(execs(ops.subrange(i, ops.len() as int)) =~= Seq::<Flow>::empty());
    }
}

proof fn lemma_outer_body_loop_free(ops: Seq<RpnOp>, j: int, end: int)
    requires
        0 <= j <= end <= ops.len(),
        forall|k: int| j <= k < end ==> !(#[trigger] ops[k] is Loop),
    ensures
        outer_body(ops, j, end) == in_loop(execs(ops.subrange(j, end))),
    decreases end - j,
{
    if j < end {
        assert(!(ops[j] is Loop));
        lemma_outer_body_loop_free(ops, j + 1, end);
        assert(in_loop(execs(ops.subrange(j, end))) =~= seq![Flow::ExecInLoop(ops[j])] + in_loop(
            execs(ops.subrange(j + 1, end)),
        ));
    } else {
        assert(in_loop(execs(ops.subrange(j, end))) =~= Seq::<Flow>::empty());
    }
}

proof fn lemma_outer_passes_repeat(ops: Seq<RpnOp>, bs: int, be: int, k: int, n: int)
    requires
        0 <= bs <= be <= ops.len(),
        forall|j: int| bs <= j < be ==> !(#[trigger] ops[j] is Loop),
        0 <= k <= n,
    ensures
        outer_passes(ops, bs, be, k, n) == repeat_flows(
            in_loop(execs(ops.subrange(bs, be))),
            (n - k) as nat,
        ),
    decreases n - k,
{
    if k < n {
        lemma_outer_passes_repeat(ops, bs, be, k + 1, n);
        lemma_outer_body_loop_free(ops, bs, be);
        lemma_execs_not_aborted(ops.subrange(bs, be));
    }
}

proof fn lemma_repeat_loop_free(body: Seq<RpnOp>, n: nat)
    requires
        loop_free(body),
    ensures
        loop_free(repeat_ops(body, n)),
        execs(repeat_ops(body, n)) == repeat_flows(execs(body), n),
    decreases n,
{
    if n > 0 {
        let rest = repeat_ops(body, (n - 1) as nat);
        lemma_repeat_loop_free(body, (n - 1) as nat);
        lemma_execs_concat(body, rest);
        assert forall|i: int| 0 <= i < (body + rest).len() implies !(#[trigger] (body + rest)[i] is Loop) by {
            if i < body.len() {
                assert((body + rest)[i] == body[i]);
            } else {
                assert((body + rest)[i] == rest[i - body.len()]);
            }
        }
    } else {
        assert(execs(Seq::<RpnOp>::empty()) =~= Seq::<Flow>::empty());
    }
}

proof fn lemma_top_prefix(ops: Seq<RpnOp>, i: int, k: int)
    requires
        0 <= i <= k <= ops.len(),
        forall|j: int| i <= j < k ==> !(#[trigger] ops[j] is Loop),
    ensures
        top(ops, i) == execs(ops.subrange(i, k)) + top(ops, k),
    decreases k - i,
{
    if i < k {
        assert(!(ops[i] is Loop));
        lemma_top_prefix(ops, i + 1, k);
        assert(execs(ops.subrange(i, k)) =~= seq![Flow::Exec(ops[i])] + execs(ops.subrange(i + 1, k)));
        assert(seq![Flow::Exec(ops[i])] + (execs(ops.subrange(i + 1, k)) + top(ops, k)) =~= (seq![
            Flow::Exec(ops[i]),
        ] + execs(ops.subrange(i + 1, k))) + top(ops, k));
    } else {
        assert(execs(ops.subrange(i, k)) =~= Seq::<Flow>::empty());
        assert(Seq::<Flow>::empty() + top(ops, k) =~= top(ops, k));
    }
}

proof fn lemma_repeat_no_abort(s: Seq<Flow>, n: nat)
    requires
        forall|i: int| 0 <= i < s.len() ==> s[i] != Flow::Abort,
    ensures
        forall|i: int| 0 <= i < repeat_flows(s, n).len() ==> repeat_flows(s, n)[i] != Flow::Abort,
        !aborted(repeat_flows(s, n)),
    decreases n,
{
    if n > 0 {
        lemma_repeat_no_abort(s, (n - 1) as nat);
        let r = repeat_flows(s, (n - 1) as nat);
        assert forall|i: int| 0 <= i < (s + r).len() implies (s + r)[i] != Flow::Abort by {
            if i < s.len() {
                assert((s + r)[i] == s[i]);
            } else {
                assert((s + r)[i] == r[i - s.len()]);
            }
        }
        if (s + r).len() > 0 {
            assert((s + r).last() == (s + r)[(s + r).len() - 1]);
        }
    }
}

/// A loop over a body without loops, between straight-line instructions,
/// runs the instructions of the body written `count` times in a row, in
/// the same order: its steps are those of the unrolled body, marked as
/// run inside a loop, between the steps of what comes before and after.
pub proof fn law_loop_equivalent_to_unrolled(
    pre: Seq<RpnOp>,
    count: u32,
    body: Seq<RpnOp>,
    post: Seq<RpnOp>,
)
    requires
        loop_free(pre),
        loop_free(body),
        loop_free(post),
        body.len() <= u32::MAX,
    ensures
        evaluation_steps(pre + seq![RpnOp::Loop { count, body_len: body.len() as u32 }] + body + post)
            == evaluation_steps(pre) + in_loop(evaluation_steps(repeat_ops(body, count as nat)))
            + evaluation_steps(post),
{
    let lp = RpnOp::Loop { count, body_len: body.len() as u32 };
    let ops = pre + seq![lp] + body + post;
    let p = pre.len() as int;
    let bs = p + 1;
    let be = bs + body.len();
    let len = ops.len() as int;
    assert(ops[p] == lp);
    assert forall|j: int| 0 <= j < p implies !(#[trigger] ops[j] is Loop) by {
        assert(ops[j] == pre[j]);
    }
    assert forall|j: int| bs <= j < be implies !(#[trigger] ops[j] is Loop) by {
        assert(ops[j] == body[j - bs]);
    }
    assert forall|j: int| be <= j < len implies !(#[trigger] ops[j] is Loop) by {
        assert(ops[j] == post[j - be]);
    }
    lemma_top_prefix(ops, 0, p);
    assert(ops.subrange(0, p) =~= pre);
    lemma_top_prefix(ops, be, len);
    assert(ops.subrange(be, len) =~= post);
    assert(top(ops, len) == Seq::<Flow>::empty());
    assert(execs(post) + Seq::<Flow>::empty() =~= execs(post));
    lemma_outer_passes_repeat(ops, bs, be, 0, count as int);
    assert(ops.subrange(bs, be) =~= body);
    let reps = repeat_flows(in_loop(execs(body)), count as nat);
    lemma_repeat_no_abort(in_loop(execs(body)), count as nat);
    assert(top(ops, p) == then(outer_passes(ops, bs, be, 0, count as int), top(ops, be)));
    assert(top(ops, p) == reps + execs(post));
    lemma_top_loop_free(pre, 0);
    assert(pre.subrange(0, p) =~= pre);
    lemma_top_loop_free(post, 0);
    assert(post.subrange(0, post.len() as int) =~= post);
    let unrolled = repeat_ops(body, count as nat);
    lemma_repeat_loop_free(body, count as nat);
    lemma_top_loop_free(unrolled, 0);
    assert(unrolled.subrange(0, unrolled.len() as int) =~= unrolled);
    lemma_in_loop_repeat(execs(body), count as nat);
    assert(evaluation_steps(ops) =~= execs(pre) + (reps + execs(post)));
}

proof fn lemma_inner_body_loop_free(ops: Seq<RpnOp>, j: int, end: int)
    requires
        0 <= j <= end <= ops.len(),
        forall|k: int| j <= k < end ==> !(#[trigger] ops[k] is Loop),
    ensures
        inner_body(ops, j, end) == in_loop(execs(ops.subrange(j, end))),
    decreases end - j,
{
    if j < end {
        assert(!(ops[j] is Loop));
        lemma_inner_body_loop_free(ops, j + 1, end);
        assert(in_loop(execs(ops.subrange(j, end))) =~= seq![Flow::ExecInLoop(ops[j])] + in_loop(
            execs(ops.subrange(j + 1, end)),
        ));
    } else {
        assert(in_loop(execs(ops.subrange(j, end))) =~= Seq::<Flow>::empty());
    }
}

proof fn lemma_inner_passes_repeat(ops: Seq<RpnOp>, bs: int, be: int, k: int, n: int)
    requires
        0 <= bs <= be <= ops.len(),
        forall|j: int| bs <= j < be ==> !(#[trigger] ops[j] is Loop),
        0 <= k <= n,
    ensures
        inner_passes(ops, bs, be, k, n) == repeat_flows(
            in_loop(execs(ops.subrange(bs, be))),
            (n - k) as nat,
        ),
    decreases n - k,
{
    if k < n {
        lemma_inner_passes_repeat(ops, bs, be, k + 1, n);
        lemma_inner_body_loop_free(ops, bs, be);
        lemma_execs_not_aborted(ops.subrange(bs, be));
    }
}

proof fn lemma_fragment_top_loop_free(ops: Seq<RpnOp>, i: int)
    requires
        loop_free(ops),
        0 <= i <= ops.len(),
    ensures
        fragment_top(ops, i) == execs(ops.subrange(i, ops.len() as int)),
    decreases ops.len() - i,
{
    if i < ops.len() {
        assert(!(ops[i] is Loop));
        lemma_fragment_top_loop_free(ops, i + 1);
        assert(execs(ops.subrange(i, ops.len() as int)) =~= seq![Flow::Exec(ops[i])] + execs(
            ops.subrange(i + 1, ops.len() as int),
        ));
    } else {
        assert(execs(ops.subrange(i, ops.len() as int)) =~= Seq::<Flow>::empty());
    }
}

/// Within a fragment too, a loop over a body without loops runs the body
/// written `count` times in a row, marked as run inside a loop.
pub proof fn law_fragment_loop_equivalent_to_unrolled(count: u32, body: Seq<RpnOp>)
    requires
        loop_free(body),
        body.len() <= u32::MAX,
    ensures
        fragment_steps(seq![RpnOp::Loop { count, body_len: body.len() as u32 }] + body)
            == in_loop(fragment_steps(repeat_ops(body, count as nat))),
{
    let ops = seq![RpnOp::Loop { count, body_len: body.len() as u32 }] + body;
    let len = ops.len() as int;
    assert(ops[0] == RpnOp::Loop { count, body_len: body.len() as u32 });
    assert forall|j: int| 1 <= j < len implies !(#[trigger] ops[j] is Loop) by {
        assert(ops[j] == body[j - 1]);
    }
    assert(fragment_top(ops, len) == Seq::<Flow>::empty());
    lemma_inner_passes_repeat(ops, 1, len, 0, count as int);
    assert(ops.subrange(1, len) =~= body);
    lemma_then_empty(inner_passes(ops, 1, len, 0, count as int));
    assert(fragment_steps(ops) == repeat_flows(in_loop(execs(body)), count as nat));
    let unrolled = repeat_ops(body, count as nat);
    lemma_repeat_loop_free(body, count as nat);
    lemma_fragment_top_loop_free(unrolled, 0);
    assert(unrolled.subrange(0, unrolled.len() as int) =~= unrolled);
    lemma_in_loop_repeat(execs(body), count as nat);
}

/// A fragment whose loop body starts with another loop stops before it
/// runs anything: loops do not nest within a fragment.
pub proof fn law_fragment_nested_loop_stops(outer: u32, body_len: u32, rest: Seq<RpnOp>)
    requires
        outer > 0,
        body_len >= 1,
        rest.len() >= 1,
        rest[0] is Loop,
    ensures
        fragment_steps(seq![RpnOp::Loop { count: outer, body_len }] + rest) == seq![Flow::Abort],
{
    let ops = seq![RpnOp::Loop { count: outer, body_len }] + rest;
    let be = 1 + body_len as int;
    assert(ops[0] == RpnOp::Loop { count: outer, body_len });
    assert(ops[1] == rest[0]);
    assert(inner_body(ops, 1, be) == seq![Flow::Abort]);
    assert(aborted(inner_body(ops, 1, be)));
    assert(inner_passes(ops, 1, be, 0, outer as int) == seq![Flow::Abort]);
}

/// Steps of running the fragments `parts` one after the other.
pub open spec fn graph_steps(parts: Seq<Seq<RpnOp>>) -> Seq<Flow>
    decreases parts.len(),
{
    if parts.len() == 0 {
        Seq::empty()
    } else {
        graph_steps(parts.drop_last()) + fragment_steps(parts.last())
    }
}

proof fn lemma_concat_loop_free(parts: Seq<Seq<RpnOp>>)
    requires
        loop_free(concat_all(parts)),
    ensures
        graph_steps(parts) == execs(concat_all(parts)),
    decreases parts.len(),
{
    if parts.len() == 0 {
        assert(execs(Seq::<RpnOp>::empty()) =~= Seq::<Flow>::empty());
    } else {
        let init = concat_all(parts.drop_last());
        let last = parts.last();
        assert(concat_all(parts) == init + last);
        assert forall|i: int| 0 <= i < init.len() implies !(#[trigger] init[i] is Loop) by {
            assert((init + last)[i] == init[i]);
        }
        assert forall|i: int| 0 <= i < last.len() implies !(#[trigger] last[i] is Loop) by {
            assert((init + last)[init.len() + i] == last[i]);
        }
        lemma_concat_loop_free(parts.drop_last());
        lemma_fragment_top_loop_free(last, 0);
        assert(last.subrange(0, last.len() as int) =~= last);
        lemma_execs_concat(init, last);
    }
}

/// Cutting a program without loops into fragments and running the
/// fragments in order runs exactly the program's steps: fragmentation
/// changes no result.
pub proof fn law_fragments_run_as_program(parts: Seq<Seq<RpnOp>>, ops: Seq<RpnOp>)
    requires
        concat_all(parts) == ops,
        loop_free(ops),
    ensures
        graph_steps(parts) == evaluation_steps(ops),
{
    lemma_concat_loop_free(parts);
    lemma_top_loop_free(ops, 0);
    assert(ops.subrange(0, ops.len() as int) =~= ops);
}

proof fn lemma_run_depth_loop_free(ops: Seq<RpnOp>, d: int)
    requires
        run_depth(ops, d) is Some,
    ensures
        loop_free(ops),
    decreases ops.len(),
{
    if ops.len() > 0 {
        let init = ops.drop_last();
        if run_depth(init, d) is None {
            assert(false);
        }
        lemma_run_depth_loop_free(init, d);
        let d2 = run_depth(init, d)->0;
        assert(step_depth(ops.last(), d2) is Some);
        assert(!(ops.last() is Loop));
        assert forall|i: int| 0 <= i < ops.len() implies !(#[trigger] ops[i] is Loop) by {
            if i < ops.len() - 1 {
                assert(ops[i] == init[i]);
            }
        }
    }
}

/// The program of an acyclic DAG has no loops, so any cut of it into
/// fragments runs, fragment after fragment, as the whole program does.
pub proof fn law_fragmented_linearized_program_runs_as_program(
    soa: NodeSoA,
    root: NodeId,
    parts: Seq<Seq<RpnOp>>,
)
    requires
        soa.wf(),
        soa.children_before(),
        root < soa.size(),
        concat_all(parts) == linearize_spec(soa, root),
    ensures
        graph_steps(parts) == evaluation_steps(linearize_spec(soa, root)),
{
    crate::rpn::law_linearized_program_leaves_one_value(soa, root);
    lemma_run_depth_loop_free(linearize_spec(soa, root), 0);
    law_fragments_run_as_program(parts, linearize_spec(soa, root));
}

} // verus!
