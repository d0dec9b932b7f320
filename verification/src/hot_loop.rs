//! Control flow of the hot loop.
//!
//! The hot loop runs the instructions of a fragment one after the other.
//! `Loop { count, body_len }` runs the `body_len` instructions after it
//! `count` times, pushing the iteration number before each pass; a loop
//! whose body would run past the end of the instructions being run stops
//! them. Which instruction runs next never depends on the values on the
//! stack, so the order of the steps is fixed by the instructions alone:
//! `LoopDriver` hands them out one at a time, and the caller does the
//! arithmetic of each step.
use crate::rpn::RpnOp;
use vstd::prelude::*;

verus! {

/// One step of the hot loop.
#[derive(Debug, Clone, Copy, PartialEq, Eq, Structural)]
pub enum Step {
    /// Run this instruction (never a `Loop`).
    Exec(RpnOp),
    /// Push the number of the loop pass that starts now.
    Counter(u32),
}

/// Steps of running instructions `[i, e)` of the block `[s, e)` of `ops`.
pub open spec fn run(ops: Seq<RpnOp>, s: int, e: int, i: int) -> Seq<Step>
    decreases e - s, 0int, e - i,
{
    if i < s || i >= e || e > ops.len() {
        Seq::empty()
    } else {
        match ops[i] {
            RpnOp::Loop { count, body_len } => {
                let bs = i + 1;
                let be = bs + body_len;
                if be > e {
                    Seq::empty()
                } else {
                    loop_passes(ops, bs, be, 0, count as int) + run(ops, s, e, be)
                }
            },
            op => seq![Step::Exec(op)] + run(ops, s, e, i + 1),
        }
    }
}

/// Steps of passes `k` to `count - 1` of the loop whose body is the block
/// `[bs, be)` of `ops`.
pub open spec fn loop_passes(ops: Seq<RpnOp>, bs: int, be: int, k: int, count: int) -> Seq<Step>
    decreases be - bs, 1int, count - k,
{
    if k >= count || bs > be || k < 0 {
        Seq::empty()
    } else {
        seq![Step::Counter(k as u32)] + run(ops, bs, be, bs) + loop_passes(ops, bs, be, k + 1, count)
    }
}

/// Steps of running the instructions `ops`.
pub open spec fn program_steps(ops: Seq<RpnOp>) -> Seq<Step> {
    run(ops, 0, ops.len() as int, 0)
}

/// A block being run: instructions `[start, end)`, the next one at `pc`;
/// for a loop body, pass `iter` of `count`.
#[derive(Debug, Clone, Copy)]
struct Frame {
    start: usize,
    end: usize,
    pc: usize,
    iter: u32,
    count: u32,
}

/// Hands out the steps of running a sequence of instructions.
#[derive(Debug)]
pub struct LoopDriver {
    frames: Vec<Frame>,
}

spec fn frame_ok(f: Frame, len: int) -> bool {
    &&& f.start <= f.pc <= f.end <= len
    &&& f.iter < f.count
}

spec fn frames_ok(frames: Seq<Frame>, len: int) -> bool {
    forall|j: int| 0 <= j < frames.len() ==> frame_ok(#[trigger] frames[j], len)
}

/// Steps left of the frames `frames[..n]`, innermost (last) first.
spec fn frames_rest(ops: Seq<RpnOp>, frames: Seq<Frame>, n: int) -> Seq<Step>
    decreases n,
{
    if n <= 0 {
        Seq::empty()
    } else {
        let f = frames[n - 1];
        run(ops, f.start as int, f.end as int, f.pc as int) + loop_passes(
            ops,
            f.start as int,
            f.end as int,
            f.iter + 1,
            f.count as int,
        ) + frames_rest(ops, frames, n - 1)
    }
}

/// Work left in the frames `frames[..n]`: a bound that every silent step
/// lowers.
spec fn frames_work(frames: Seq<Frame>, n: int) -> int
    decreases n,
{
    if n <= 0 {
        0
    } else {
        let f = frames[n - 1];
        (f.end - f.pc) + 1 + frames_work(frames, n - 1)
    }
}

proof fn lemma_frames_rest_prefix(ops: Seq<RpnOp>, a: Seq<Frame>, b: Seq<Frame>, n: int)
    requires
        0 <= n <= a.len(),
        n <= b.len(),
        forall|j: int| 0 <= j < n ==> a[j] == b[j],
    ensures
        frames_rest(ops, a, n) == frames_rest(ops, b, n),
        frames_work(a, n) == frames_work(b, n),
    decreases n,
{
    if n > 0 {
        lemma_frames_rest_prefix(ops, a, b, n - 1);
    }
}

proof fn lemma_frames_work_nonneg(frames: Seq<Frame>, n: int, len: int)
    requires
        0 <= n <= frames.len(),
        frames_ok(frames, len),
    ensures
        frames_work(frames, n) >= 0,
    decreases n,
{
    if n > 0 {
        assert(frame_ok(frames[n - 1], len));
        lemma_frames_work_nonneg(frames, n - 1, len);
    }
}

impl LoopDriver {
    /// Steps still to be handed out when running `ops`.
    pub closed spec fn remaining(&self, ops: Seq<RpnOp>) -> Seq<Step> {
        frames_rest(ops, self.frames@, self.frames@.len() as int)
    }

    /// The driver's blocks lie inside `ops`.
    pub closed spec fn wf(&self, ops: Seq<RpnOp>) -> bool {
        frames_ok(self.frames@, ops.len() as int)
    }

    /// A driver for running `ops` from the start.
    pub fn new(ops: &[RpnOp]) -> (d: Self)
        ensures
            d.wf(ops@),
            d.remaining(ops@) == program_steps(ops@),
    {
        let mut frames: Vec<Frame> = Vec::new();
        frames.push(Frame { start: 0, end: ops.len(), pc: 0, iter: 0, count: 1 });
        let d = LoopDriver { frames };
        proof {
            let f = d.frames@[0];
            assert(loop_passes(ops@, 0, ops@.len() as int, 1, 1) == Seq::<Step>::empty());
            assert(frames_rest(ops@, d.frames@, 0) == Seq::<Step>::empty());
            assert(d.remaining(ops@) =~= program_steps(ops@));
        }
        d
    }

    /// The next step of running `ops`, `None` once every step was handed
    /// out.
    #[verifier::rlimit(60)]
    pub fn next_step(&mut self, ops: &[RpnOp]) -> (s: Option<Step>)
        requires
            old(self).wf(ops@),
        ensures
            final(self).wf(ops@),
            match s {
                Some(st) => old(self).remaining(ops@) == seq![st] + final(self).remaining(ops@),
                None => old(self).remaining(ops@) == Seq::<Step>::empty(),
            },
    {
        let ghost total = self.remaining(ops@);
        let ghost len = ops@.len() as int;
        while self.frames.len() > 0
            invariant
                self.wf(ops@),
                self.remaining(ops@) == total,
                old(self).remaining(ops@) == total,
                len == ops@.len(),
            decreases frames_work(self.frames@, self.frames@.len() as int),
        {
            let n = self.frames.len();
            let f = self.frames[n - 1];
            let ghost old_frames = self.frames@;
            proof {
                assert(frame_ok(old_frames[n - 1], len));
                lemma_frames_work_nonneg(old_frames, n - 1, len);
            }
            if f.pc >= f.end {
                if f.iter as u64 + 1 < f.count as u64 {
                    let g = Frame { start: f.start, end: f.end, pc: f.start, iter: f.iter + 1, count: f.count };
                    self.frames.set(n - 1, g);
                    proof {
                        lemma_frames_rest_prefix(ops@, old_frames, self.frames@, n - 1);
                        assert(frames_ok(self.frames@, len));
                        assert(run(ops@, f.start as int, f.end as int, f.pc as int) == Seq::<Step>::empty());
                        assert(loop_passes(ops@, f.start as int, f.end as int, f.iter + 1, f.count as int)
                            == seq![Step::Counter((f.iter + 1) as u32)] + run(ops@, f.start as int, f.end as int, f.start as int)
                                + loop_passes(ops@, f.start as int, f.end as int, f.iter + 2, f.count as int));
                        assert(total =~= seq![Step::Counter((f.iter + 1) as u32)] + self.remaining(ops@));
                    }
                    return Some(Step::Counter(f.iter + 1));
                } else {
                    self.frames.pop();
                    proof {
                        lemma_frames_rest_prefix(ops@, old_frames, self.frames@, n - 1);
                        assert(frames_ok(self.frames@, len));
                        assert(run(ops@, f.start as int, f.end as int, f.pc as int) == Seq::<Step>::empty());
                        assert(loop_passes(ops@, f.start as int, f.end as int, f.iter + 1, f.count as int)
                            == Seq::<Step>::empty());
                        assert(total =~= self.remaining(ops@));
                    }
                }
            } else {
                let op = ops[f.pc];
                match op {
                    RpnOp::Loop { count, body_len } => {
                        let bs = f.pc + 1;
                        if body_len as usize > f.end - bs {
                            assert(bs + body_len > f.end);
                            let g = Frame { start: f.start, end: f.end, pc: f.end, iter: f.iter, count: f.count };
                            self.frames.set(n - 1, g);
                            proof {
                                lemma_frames_rest_prefix(ops@, old_frames, self.frames@, n - 1);
                                assert(frames_ok(self.frames@, len));
                                assert(total =~= self.remaining(ops@));
                            }
                        } else if count == 0 {
                            let be = bs + body_len as usize;
                            let g = Frame { start: f.start, end: f.end, pc: be, iter: f.iter, count: f.count };
                            self.frames.set(n - 1, g);
                            proof {
                                lemma_frames_rest_prefix(ops@, old_frames, self.frames@, n - 1);
                                assert(frames_ok(self.frames@, len));
                                assert(loop_passes(ops@, bs as int, be as int, 0, 0) == Seq::<Step>::empty());
                                assert(total =~= self.remaining(ops@));
                            }
                        } else {
                            let be = bs + body_len as usize;
                            let g = Frame { start: f.start, end: f.end, pc: be, iter: f.iter, count: f.count };
                            self.frames.set(n - 1, g);
                            let ghost mid = self.frames@;
                            self.frames.push(Frame { start: bs, end: be, pc: bs, iter: 0, count });
                            proof {
                                lemma_frames_rest_prefix(ops@, old_frames, mid, n - 1);
                                lemma_frames_rest_prefix(ops@, mid, self.frames@, n as int);
                                assert(frames_ok(self.frames@, len));
                                assert(loop_passes(ops@, bs as int, be as int, 0, count as int)
                                    == seq![Step::Counter(0)] + run(ops@, bs as int, be as int, bs as int)
                                        + loop_passes(ops@, bs as int, be as int, 1, count as int));
                                assert(total =~= seq![Step::Counter(0)] + self.remaining(ops@));
                            }
                            return Some(Step::Counter(0));
                        }
                    },
                    _ => {
                        let g = Frame { start: f.start, end: f.end, pc: f.pc + 1, iter: f.iter, count: f.count };
                        self.frames.set(n - 1, g);
                        proof {
                            lemma_frames_rest_prefix(ops@, old_frames, self.frames@, n - 1);
                            assert(frames_ok(self.frames@, len));
                            assert(total =~= seq![Step::Exec(op)] + self.remaining(ops@));
                            }
                        return Some(Step::Exec(op));
                    },
                }
            }
        }
        proof {
            assert(self.remaining(ops@) == Seq::<Step>::empty());
        }
        None
    }
}

proof fn lemma_run_shift(big: Seq<RpnOp>, small: Seq<RpnOp>, p: int, s: int, e: int, i: int)
    requires
        0 <= p,
        p + small.len() <= big.len(),
        forall|j: int| 0 <= j < small.len() ==> big[p + j] == #[trigger] small[j],
        0 <= s,
        e <= small.len(),
    ensures
        run(big, p + s, p + e, p + i) == run(small, s, e, i),
    decreases e - s, 0int, e - i,
{
    if i < s || i >= e {
    } else {
        assert(big[p + i] == small[i]);
        match small[i] {
            RpnOp::Loop { count, body_len } => {
                let bs = i + 1;
                let be = bs + body_len;
                if be <= e {
                    lemma_passes_shift(big, small, p, bs, be, 0, count as int);
                    lemma_run_shift(big, small, p, s, e, be);
                }
            },
            _ => {
                lemma_run_shift(big, small, p, s, e, i + 1);
            },
        }
    }
}

proof fn lemma_passes_shift(
    big: Seq<RpnOp>,
    small: Seq<RpnOp>,
    p: int,
    bs: int,
    be: int,
    k: int,
    count: int,
)
    requires
        0 <= p,
        p + small.len() <= big.len(),
        forall|j: int| 0 <= j < small.len() ==> big[p + j] == #[trigger] small[j],
        0 <= bs,
        be <= small.len(),
    ensures
        loop_passes(big, p + bs, p + be, k, count) == loop_passes(small, bs, be, k, count),
    decreases be - bs, 1int, count - k,
{
    if k >= count || bs > be || k < 0 {
    } else {
        lemma_run_shift(big, small, p, bs, be, bs);
        lemma_passes_shift(big, small, p, bs, be, k + 1, count);
    }
}

/// A loop over a body of `body.len()` instructions runs the body `count`
/// times: each pass pushes its number, then runs the body's steps.
pub proof fn law_loop_runs_body_count_times(count: u32, body: Seq<RpnOp>)
    requires
        body.len() <= u32::MAX,
    ensures
        program_steps(seq![RpnOp::Loop { count, body_len: body.len() as u32 }] + body)
            == loop_passes(body, 0, body.len() as int, 0, count as int),
        count > 0 ==> loop_passes(body, 0, body.len() as int, 0, count as int)
            == seq![Step::Counter(0)] + program_steps(body) + loop_passes(
                body,
                0,
                body.len() as int,
                1,
                count as int,
            ),
{
    let ops = seq![RpnOp::Loop { count, body_len: body.len() as u32 }] + body;
    let b = body.len() as int;
    assert forall|j: int| 0 <= j < body.len() implies ops[1 + j] == #[trigger] body[j] by {}
    lemma_passes_shift(ops, body, 1, 0, b, 0, count as int);
    assert(ops[0] == RpnOp::Loop { count, body_len: body.len() as u32 });
    assert(run(ops, 0, 1 + b, 1 + b) == Seq::<Step>::empty());
    assert(program_steps(ops) =~= loop_passes(ops, 1, 1 + b, 0, count as int) + run(ops, 0, 1 + b, 1 + b));
}

} // verus!
