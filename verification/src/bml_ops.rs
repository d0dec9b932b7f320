//! Vector building blocks written as RPN programs with `Loop`.
//!
//! Each program keeps its loop body constant in size, so the bytecode of a
//! dot product or a matrix product does not grow with the vector length.
use crate::dataflow::{e_add, e_bml, e_mul, e_neg, expr_run, Expr};
use crate::rpn::{RpnOp, RpnProgram};
use vstd::prelude::*;

verus! {

/// Loop body of a dot product: `acc + x[i] * w[i]`.
pub open spec fn dot_body(x_base: u32, w_base: u32) -> Seq<RpnOp> {
    seq![
        RpnOp::Dup,
        RpnOp::VarIndexed { base: x_base },
        RpnOp::Swap,
        RpnOp::VarIndexed { base: w_base },
        RpnOp::FMul,
        RpnOp::FAdd,
    ]
}

/// A zero accumulator, then a loop of `count` turns over `body`.
pub open spec fn fold_program(count: u32, body: Seq<RpnOp>) -> Seq<RpnOp> {
    seq![RpnOp::Zero, RpnOp::Loop { count, body_len: body.len() as u32 }] + body
}

/// Instructions of column `j` of a matrix product, run with the column's
/// offset `j` kept below on the stack: the dot product of `x` with column
/// `j` of `W` (stored from `w_base + j * n_in`), stored at offset `j` of
/// `output_slot` (a copy of the offset is picked from under the result),
/// then the offset raised to `j + 1` for the next column.
pub open spec fn matmul_column(x_base: u32, w_base: u32, n_in: u32, j: u32, output_slot: u32) -> Seq<
    RpnOp,
> {
    fold_program(n_in, dot_body(x_base, (w_base + j * n_in) as u32)) + seq![
        RpnOp::Pick { depth: 1 },
        RpnOp::StoreResult { slot: output_slot },
        RpnOp::One,
        RpnOp::FAdd,
    ]
}

/// The number `-1`, built from `Bml` alone: `bml(0, bml(bml(1, 1), 1))`
/// `= 2^0 - log2(4)`.
pub open spec fn neg_one_ops() -> Seq<RpnOp> {
    seq![RpnOp::Zero, RpnOp::One, RpnOp::One, RpnOp::Bml, RpnOp::One, RpnOp::Bml, RpnOp::Bml]
}

/// Loop body of SwiGLU: `acc + g * sigmoid(1.7 * g) * up[i]` with
/// `g = gate[i]`. With `u = 1.7 * g * log2(e)`, `exp(-1.7 g) = 2^-u =
/// bml(-u, 1)`; with `d = 1 + 2^-u`, `sigmoid = 1 / d = 2^-log2(d)` and
/// `-log2(d) = bml(0, d) - 1`. The constants `c17`, `clog2e` and `cone`
/// hold `1.7`, `log2(e)` and `1`.
pub open spec fn swiglu_body(gate_base: u32, up_base: u32, c17: u32, clog2e: u32, cone: u32) -> Seq<
    RpnOp,
> {
    seq![
        RpnOp::Dup,
        RpnOp::VarIndexed { base: gate_base },
        RpnOp::Dup,
        RpnOp::Const(c17),
        RpnOp::FMul,
        RpnOp::Const(clog2e),
        RpnOp::FMul,
    ] + neg_one_ops() + seq![
        RpnOp::FMul,
        RpnOp::One,
        RpnOp::Bml,
        RpnOp::Const(cone),
        RpnOp::FAdd,
        RpnOp::Zero,
        RpnOp::Swap,
        RpnOp::Bml,
    ] + neg_one_ops() + seq![
        RpnOp::FAdd,
        RpnOp::One,
        RpnOp::Bml,
        RpnOp::FMul,
        RpnOp::Swap,
        RpnOp::VarIndexed { base: up_base },
        RpnOp::FMul,
        RpnOp::FAdd,
    ]
}

/// Loop body of RMSNorm: `acc + x[i] * c * w[i]` with `c` the constant
/// `recip_rms_const`.
pub open spec fn rmsnorm_body(x_base: u32, w_base: u32, recip_rms_const: u32) -> Seq<RpnOp> {
    seq![
        RpnOp::Dup,
        RpnOp::VarIndexed { base: x_base },
        RpnOp::Const(recip_rms_const),
        RpnOp::FMul,
        RpnOp::Swap,
        RpnOp::VarIndexed { base: w_base },
        RpnOp::FMul,
        RpnOp::FAdd,
    ]
}

/// The RoPE rotation of one pair, the negation written with `Bml` alone.
pub open spec fn rope_ops(x_even_base: u32, x_odd_base: u32, cos_const: u32, sin_const: u32) -> Seq<
    RpnOp,
> {
    seq![
        RpnOp::Var(x_even_base),
        RpnOp::Const(cos_const),
        RpnOp::FMul,
        RpnOp::Var(x_odd_base),
        RpnOp::Const(sin_const),
        RpnOp::FMul,
        RpnOp::One,
        RpnOp::Bml,
        RpnOp::One,
        RpnOp::Zero,
        RpnOp::Bml,
        RpnOp::One,
        RpnOp::Bml,
        RpnOp::One,
        RpnOp::Swap,
        RpnOp::Bml,
        RpnOp::Swap,
        RpnOp::Bml,
        RpnOp::FAdd,
    ]
}

fn push_all(program: &mut RpnProgram, body: &[RpnOp])
    ensures
        final(program).ops@ == old(program).ops@ + body@,
{
    let mut i: usize = 0;
    while i < body.len()
        invariant
            i <= body@.len(),
            program.ops@ == old(program).ops@ + body@.subrange(0, i as int),
        decreases body@.len() - i,
    {
        program.push(body[i]);
        assert(body@.subrange(0, i + 1) =~= body@.subrange(0, i as int).push(body@[i as int]));
        i = i + 1;
    }
    assert(body@.subrange(0, body@.len() as int) =~= body@);
}

fn fold_into(program: &mut RpnProgram, count: u32, body: &[RpnOp])
    requires
        body@.len() <= u32::MAX,
    ensures
        final(program).ops@ == old(program).ops@ + fold_program(count, body@),
{
    program.push(RpnOp::Zero);
    program.push(RpnOp::Loop { count, body_len: body.len() as u32 });
    push_all(program, body);
    assert(program.ops@ =~= old(program).ops@ + fold_program(count, body@));
}

/// RPN program of a dot product `Σ x[i] * w[i]` over `n_in` elements; the
/// result is left on top of the stack.
pub fn bml_dot_program(x_base: u32, w_base: u32, n_in: u32) -> (program: RpnProgram)
    ensures
        program.ops@ == fold_program(n_in, dot_body(x_base, w_base)),
{
    let mut program = RpnProgram::new();
    let body = [
        RpnOp::Dup,
        RpnOp::VarIndexed { base: x_base },
        RpnOp::Swap,
        RpnOp::VarIndexed { base: w_base },
        RpnOp::FMul,
        RpnOp::FAdd,
    ];
    assert(body@ =~= dot_body(x_base, w_base));
    fold_into(&mut program, n_in, &body);
    assert(program.ops@ =~= fold_program(n_in, dot_body(x_base, w_base)));
    program
}

proof fn lemma_column_base_fits(w_base: u32, j: u32, n_in: u32, n_out: u32)
    requires
        j < n_out,
        w_base + (n_out - 1) * n_in <= u32::MAX,
    ensures
        w_base + j * n_in <= u32::MAX,
{
    assert(j * n_in <= (n_out - 1) * n_in) by (nonlinear_arith)
        requires
            j <= n_out - 1,
    ;
}

/// RPN program of a matrix product `y = x · W`: one dot product per
/// column `j < n_out`, each stored at offset `j` of `output_slot`. The
/// offset is counted on the stack: `0` before the first column, dropped
/// after the last.
pub fn bml_matmul_program(x_base: u32, w_base: u32, n_in: u32, n_out: u32, output_slot: u32) -> (program: RpnProgram)
    requires
        n_out == 0 || w_base + (n_out - 1) * n_in <= u32::MAX,
    ensures
        n_out == 0 ==> program.ops@.len() == 0,
        n_out > 0 ==> program.ops@.len() == 12 * n_out + 2,
        n_out > 0 ==> program.ops@[0] == RpnOp::Zero,
        n_out > 0 ==> program.ops@[12 * n_out + 1] == RpnOp::Drop,
        forall|j: int|
            0 <= j < n_out ==> #[trigger] program.ops@.subrange(12 * j + 1, 12 * j + 13) == matmul_column(
                x_base,
                w_base,
                n_in,
                j as u32,
                output_slot,
            ),
{
    let mut program = RpnProgram::new();
    if n_out == 0 {
        return program;
    }
    program.push(RpnOp::Zero);
    let mut j: u32 = 0;
    while j < n_out
        invariant
            j <= n_out,
            n_out > 0,
            n_out == 0 || w_base + (n_out - 1) * n_in <= u32::MAX,
            program.ops@.len() == 12 * j + 1,
            program.ops@[0] == RpnOp::Zero,
            forall|jj: int|
                0 <= jj < j ==> #[trigger] program.ops@.subrange(12 * jj + 1, 12 * jj + 13)
                    == matmul_column(x_base, w_base, n_in, jj as u32, output_slot),
        decreases n_out - j,
    {
        proof {
            lemma_column_base_fits(w_base, j, n_in, n_out);
        }
        let w_col_base: u32 = w_base + j * n_in;
        let body = [
            RpnOp::Dup,
            RpnOp::VarIndexed { base: x_base },
            RpnOp::Swap,
            RpnOp::VarIndexed { base: w_col_base },
            RpnOp::FMul,
            RpnOp::FAdd,
        ];
        let ghost before = program.ops@;
        fold_into(&mut program, n_in, &body);
        program.push(RpnOp::Pick { depth: 1 });
        program.push(RpnOp::StoreResult { slot: output_slot });
        program.push(RpnOp::One);
        program.push(RpnOp::FAdd);
        proof {
            assert(body@ =~= dot_body(x_base, w_col_base));
            assert(program.ops@ =~= before + matmul_column(x_base, w_base, n_in, j, output_slot));
            assert forall|jj: int| 0 <= jj < j + 1 implies #[trigger] program.ops@.subrange(
                12 * jj + 1,
                12 * jj + 13,
            ) == matmul_column(x_base, w_base, n_in, jj as u32, output_slot) by {
                if jj < j {
                    assert(program.ops@.subrange(12 * jj + 1, 12 * jj + 13) =~= before.subrange(
                        12 * jj + 1,
                        12 * jj + 13,
                    ));
                } else {
                    assert(program.ops@.subrange(12 * jj + 1, 12 * jj + 13) =~= matmul_column(
                        x_base,
                        w_base,
                        n_in,
                        j,
                        output_slot,
                    ));
                }
            }
        }
        j = j + 1;
    }
    let ghost full = program.ops@;
    program.push(RpnOp::Drop);
    proof {
        assert forall|jj: int| 0 <= jj < n_out implies #[trigger] program.ops@.subrange(
            12 * jj + 1,
            12 * jj + 13,
        ) == matmul_column(x_base, w_base, n_in, jj as u32, output_slot) by {
            assert(program.ops@.subrange(12 * jj + 1, 12 * jj + 13) =~= full.subrange(
                12 * jj + 1,
                12 * jj + 13,
            ));
        }
    }
    program
}

/// RPN program of RMSNorm: `Σ x[i] * c * w[i]` over `n_embd` elements,
/// where `c` is the pool constant `recip_rms_const` holding `1/rms`.
pub fn bml_rmsnorm_program(
    x_base: u32,
    w_base: u32,
    n_embd: u32,
    recip_rms_const: u32,
    _output_slot: u32,
) -> (program: RpnProgram)
    ensures
        program.ops@ == fold_program(n_embd, rmsnorm_body(x_base, w_base, recip_rms_const)),
{
    let mut program = RpnProgram::new();
    let body = [
        RpnOp::Dup,
        RpnOp::VarIndexed { base: x_base },
        RpnOp::Const(recip_rms_const),
        RpnOp::FMul,
        RpnOp::Swap,
        RpnOp::VarIndexed { base: w_base },
        RpnOp::FMul,
        RpnOp::FAdd,
    ];
    assert(body@ =~= rmsnorm_body(x_base, w_base, recip_rms_const));
    fold_into(&mut program, n_embd, &body);
    assert(program.ops@ =~= fold_program(n_embd, rmsnorm_body(x_base, w_base, recip_rms_const)));
    program
}

/// RPN program of SwiGLU: `Σ gate[i] * sigmoid(1.7 * gate[i]) * up[i]`
/// over `n_embd` elements (see [`swiglu_body`]); `const_1_7`,
/// `const_log2e` and `const_one` are the pool constants `1.7`, `log2(e)`
/// and `1`.
pub fn bml_swiglu_program(
    gate_base: u32,
    up_base: u32,
    n_embd: u32,
    const_1_7: u32,
    const_log2e: u32,
    const_one: u32,
    _output_slot: u32,
) -> (program: RpnProgram)
    ensures
        program.ops@ == fold_program(
            n_embd,
            swiglu_body(gate_base, up_base, const_1_7, const_log2e, const_one),
        ),
{
    let mut program = RpnProgram::new();
    let body = [
        RpnOp::Dup,
        RpnOp::VarIndexed { base: gate_base },
        RpnOp::Dup,
        RpnOp::Const(const_1_7),
        RpnOp::FMul,
        RpnOp::Const(const_log2e),
        RpnOp::FMul,
        RpnOp::Zero,
        RpnOp::One,
        RpnOp::One,
        RpnOp::Bml,
        RpnOp::One,
        RpnOp::Bml,
        RpnOp::Bml,
        RpnOp::FMul,
        RpnOp::One,
        RpnOp::Bml,
        RpnOp::Const(const_one),
        RpnOp::FAdd,
        RpnOp::Zero,
        RpnOp::Swap,
        RpnOp::Bml,
        RpnOp::Zero,
        RpnOp::One,
        RpnOp::One,
        RpnOp::Bml,
        RpnOp::One,
        RpnOp::Bml,
        RpnOp::Bml,
        RpnOp::FAdd,
        RpnOp::One,
        RpnOp::Bml,
        RpnOp::FMul,
        RpnOp::Swap,
        RpnOp::VarIndexed { base: up_base },
        RpnOp::FMul,
        RpnOp::FAdd,
    ];
    assert(body@ =~= swiglu_body(gate_base, up_base, const_1_7, const_log2e, const_one));
    fold_into(&mut program, n_embd, &body);
    program
}

/// RPN program of the RoPE rotation `x_even * cos - x_odd * sin`, where
/// the negation is built from `Bml` alone (`bml(-inf, exp2(y)) = -y`).
pub fn bml_rope_program(
    x_even_base: u32,
    x_odd_base: u32,
    cos_const: u32,
    sin_const: u32,
    _output_slot: u32,
) -> (program: RpnProgram)
    ensures
        program.ops@ == rope_ops(x_even_base, x_odd_base, cos_const, sin_const),
{
    let mut program = RpnProgram::new();
    let ops = [
        RpnOp::Var(x_even_base),
        RpnOp::Const(cos_const),
        RpnOp::FMul,
        RpnOp::Var(x_odd_base),
        RpnOp::Const(sin_const),
        RpnOp::FMul,
        RpnOp::One,
        RpnOp::Bml,
        RpnOp::One,
        RpnOp::Zero,
        RpnOp::Bml,
        RpnOp::One,
        RpnOp::Bml,
        RpnOp::One,
        RpnOp::Swap,
        RpnOp::Bml,
        RpnOp::Swap,
        RpnOp::Bml,
        RpnOp::FAdd,
    ];
    push_all(&mut program, &ops);
    assert(program.ops@ =~= rope_ops(x_even_base, x_odd_base, cos_const, sin_const));
    program
}


/// Run on a stack, the RoPE program leaves `x_even * cos - x_odd * sin`:
/// the even input times the `cos_const` constant, plus the negation (with
/// `bml` alone) of the odd input times the `sin_const` constant, and
/// writes nothing.
pub proof fn law_rope_rotates_the_pair(x_even_base: u32, x_odd_base: u32, cos_const: u32, sin_const: u32)
    ensures
        expr_run(rope_ops(x_even_base, x_odd_base, cos_const, sin_const), 0, Seq::empty()) == Some::<
            (Seq<Expr>, Seq<(u32, Expr)>),
        >(
            (
                seq![
                    e_add(
                        e_mul(Expr::Var(x_even_base), Expr::Const(cos_const)),
                        e_neg(e_mul(Expr::Var(x_odd_base), Expr::Const(sin_const))),
                    ),
                ],
                Seq::empty(),
            ),
        ),
{
    let p0 = Seq::<RpnOp>::empty();
    assert(expr_run(p0, 0, Seq::empty()) == Some::<(Seq<Expr>, Seq<(u32, Expr)>)>((Seq::<Expr>::empty(), Seq::<(u32, Expr)>::empty())));
    let p1 = p0.push(RpnOp::Var(x_even_base));
    assert(p1.drop_last() =~= p0);
    assert(expr_run(p1, 0, Seq::empty()) == Some::<(Seq<Expr>, Seq<(u32, Expr)>)>((seq![Expr::Var(x_even_base)], Seq::<(u32, Expr)>::empty())));
    let p2 = p1.push(RpnOp::Const(cos_const));
    assert(p2.drop_last() =~= p1);
    assert(expr_run(p2, 0, Seq::empty()) == Some::<(Seq<Expr>, Seq<(u32, Expr)>)>((seq![Expr::Var(x_even_base), Expr::Const(cos_const)], Seq::<(u32, Expr)>::empty())));
    let p3 = p2.push(RpnOp::FMul);
    assert(p3.drop_last() =~= p2);
    assert(expr_run(p3, 0, Seq::empty()) == Some::<(Seq<Expr>, Seq<(u32, Expr)>)>((seq![e_mul(Expr::Var(x_even_base), Expr::Const(cos_const))], Seq::<(u32, Expr)>::empty())));
    let p4 = p3.push(RpnOp::Var(x_odd_base));
    assert(p4.drop_last() =~= p3);
    assert(expr_run(p4, 0, Seq::empty()) == Some::<(Seq<Expr>, Seq<(u32, Expr)>)>((seq![e_mul(Expr::Var(x_even_base), Expr::Const(cos_const)), Expr::Var(x_odd_base)], Seq::<(u32, Expr)>::empty())));
    let p5 = p4.push(RpnOp::Const(sin_const));
    assert(p5.drop_last() =~= p4);
    assert(expr_run(p5, 0, Seq::empty()) == Some::<(Seq<Expr>, Seq<(u32, Expr)>)>((seq![e_mul(Expr::Var(x_even_base), Expr::Const(cos_const)), Expr::Var(x_odd_base), Expr::Const(sin_const)], Seq::<(u32, Expr)>::empty())));
    let p6 = p5.push(RpnOp::FMul);
    assert(p6.drop_last() =~= p5);
    assert(expr_run(p6, 0, Seq::empty()) == Some::<(Seq<Expr>, Seq<(u32, Expr)>)>((seq![e_mul(Expr::Var(x_even_base), Expr::Const(cos_const)), e_mul(Expr::Var(x_odd_base), Expr::Const(sin_const))], Seq::<(u32, Expr)>::empty())));
    let p7 = p6.push(RpnOp::One);
    assert(p7.drop_last() =~= p6);
    assert(expr_run(p7, 0, Seq::empty()) == Some::<(Seq<Expr>, Seq<(u32, Expr)>)>((seq![e_mul(Expr::Var(x_even_base), Expr::Const(cos_const)), e_mul(Expr::Var(x_odd_base), Expr::Const(sin_const)), Expr::One], Seq::<(u32, Expr)>::empty())));
    let p8 = p7.push(RpnOp::Bml);
    assert(p8.drop_last() =~= p7);
    assert(expr_run(p8, 0, Seq::empty()) == Some::<(Seq<Expr>, Seq<(u32, Expr)>)>((seq![e_mul(Expr::Var(x_even_base), Expr::Const(cos_const)), e_bml(e_mul(Expr::Var(x_odd_base), Expr::Const(sin_const)), Expr::One)], Seq::<(u32, Expr)>::empty())));
    let p9 = p8.push(RpnOp::One);
    assert(p9.drop_last() =~= p8);
    assert(expr_run(p9, 0, Seq::empty()) == Some::<(Seq<Expr>, Seq<(u32, Expr)>)>((seq![e_mul(Expr::Var(x_even_base), Expr::Const(cos_const)), e_bml(e_mul(Expr::Var(x_odd_base), Expr::Const(sin_const)), Expr::One), Expr::One], Seq::<(u32, Expr)>::empty())));
    let p10 = p9.push(RpnOp::Zero);
    assert(p10.drop_last() =~= p9);
    assert(expr_run(p10, 0, Seq::empty()) == Some::<(Seq<Expr>, Seq<(u32, Expr)>)>((seq![e_mul(Expr::Var(x_even_base), Expr::Const(cos_const)), e_bml(e_mul(Expr::Var(x_odd_base), Expr::Const(sin_const)), Expr::One), Expr::One, Expr::Zero], Seq::<(u32, Expr)>::empty())));
    let p11 = p10.push(RpnOp::Bml);
    assert(p11.drop_last() =~= p10);
    assert(expr_run(p11, 0, Seq::empty()) == Some::<(Seq<Expr>, Seq<(u32, Expr)>)>((seq![e_mul(Expr::Var(x_even_base), Expr::Const(cos_const)), e_bml(e_mul(Expr::Var(x_odd_base), Expr::Const(sin_const)), Expr::One), e_bml(Expr::One, Expr::Zero)], Seq::<(u32, Expr)>::empty())));
    let p12 = p11.push(RpnOp::One);
    assert(p12.drop_last() =~= p11);
    assert(expr_run(p12, 0, Seq::empty()) == Some::<(Seq<Expr>, Seq<(u32, Expr)>)>((seq![e_mul(Expr::Var(x_even_base), Expr::Const(cos_const)), e_bml(e_mul(Expr::Var(x_odd_base), Expr::Const(sin_const)), Expr::One), e_bml(Expr::One, Expr::Zero), Expr::One], Seq::<(u32, Expr)>::empty())));
    let p13 = p12.push(RpnOp::Bml);
    assert(p13.drop_last() =~= p12);
    assert(expr_run(p13, 0, Seq::empty()) == Some::<(Seq<Expr>, Seq<(u32, Expr)>)>((seq![e_mul(Expr::Var(x_even_base), Expr::Const(cos_const)), e_bml(e_mul(Expr::Var(x_odd_base), Expr::Const(sin_const)), Expr::One), e_bml(e_bml(Expr::One, Expr::Zero), Expr::One)], Seq::<(u32, Expr)>::empty())));
    let p14 = p13.push(RpnOp::One);
    assert(p14.drop_last() =~= p13);
    assert(expr_run(p14, 0, Seq::empty()) == Some::<(Seq<Expr>, Seq<(u32, Expr)>)>((seq![e_mul(Expr::Var(x_even_base), Expr::Const(cos_const)), e_bml(e_mul(Expr::Var(x_odd_base), Expr::Const(sin_const)), Expr::One), e_bml(e_bml(Expr::One, Expr::Zero), Expr::One), Expr::One], Seq::<(u32, Expr)>::empty())));
    let p15 = p14.push(RpnOp::Swap);
    assert(p15.drop_last() =~= p14);
    assert(expr_run(p15, 0, Seq::empty()) == Some::<(Seq<Expr>, Seq<(u32, Expr)>)>((seq![e_mul(Expr::Var(x_even_base), Expr::Const(cos_const)), e_bml(e_mul(Expr::Var(x_odd_base), Expr::Const(sin_const)), Expr::One), Expr::One, e_bml(e_bml(Expr::One, Expr::Zero), Expr::One)], Seq::<(u32, Expr)>::empty())));
    let p16 = p15.push(RpnOp::Bml);
    assert(p16.drop_last() =~= p15);
    assert(expr_run(p16, 0, Seq::empty()) == Some::<(Seq<Expr>, Seq<(u32, Expr)>)>((seq![e_mul(Expr::Var(x_even_base), Expr::Const(cos_const)), e_bml(e_mul(Expr::Var(x_odd_base), Expr::Const(sin_const)), Expr::One), e_bml(Expr::One, e_bml(e_bml(Expr::One, Expr::Zero), Expr::One))], Seq::<(u32, Expr)>::empty())));
    let p17 = p16.push(RpnOp::Swap);
    assert(p17.drop_last() =~= p16);
    assert(expr_run(p17, 0, Seq::empty()) == Some::<(Seq<Expr>, Seq<(u32, Expr)>)>((seq![e_mul(Expr::Var(x_even_base), Expr::Const(cos_const)), e_bml(Expr::One, e_bml(e_bml(Expr::One, Expr::Zero), Expr::One)), e_bml(e_mul(Expr::Var(x_odd_base), Expr::Const(sin_const)), Expr::One)], Seq::<(u32, Expr)>::empty())));
    let p18 = p17.push(RpnOp::Bml);
    assert(p18.drop_last() =~= p17);
    assert(expr_run(p18, 0, Seq::empty()) == Some::<(Seq<Expr>, Seq<(u32, Expr)>)>((seq![e_mul(Expr::Var(x_even_base), Expr::Const(cos_const)), e_bml(e_bml(Expr::One, e_bml(e_bml(Expr::One, Expr::Zero), Expr::One)), e_bml(e_mul(Expr::Var(x_odd_base), Expr::Const(sin_const)), Expr::One))], Seq::<(u32, Expr)>::empty())));
    let p19 = p18.push(RpnOp::FAdd);
    assert(p19.drop_last() =~= p18);
    assert(expr_run(p19, 0, Seq::empty()) == Some::<(Seq<Expr>, Seq<(u32, Expr)>)>((seq![e_add(e_mul(Expr::Var(x_even_base), Expr::Const(cos_const)), e_bml(e_bml(Expr::One, e_bml(e_bml(Expr::One, Expr::Zero), Expr::One)), e_bml(e_mul(Expr::Var(x_odd_base), Expr::Const(sin_const)), Expr::One)))], Seq::<(u32, Expr)>::empty())));
    assert(p19 =~= rope_ops(x_even_base, x_odd_base, cos_const, sin_const));
}

} // verus!
