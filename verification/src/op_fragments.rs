//! One fragment per transformer operation.
//!
//! Every operation of a layer (matmul, RMSNorm, attention, MLP) becomes a
//! fragment of its own whose hot loop stays far below an L1 cache. The
//! fragments talk to each other through numbered result slots.
use crate::dataflow::{e_bml, expr_run, Expr};
use crate::fragment::Fragment;
use crate::rpn::RpnOp;
use crate::text::{decimal, decimal_string};
use vstd::prelude::*;

verus! {

/// Which slots a fragment reads and writes.
#[derive(Debug, Clone)]
pub struct FragmentMeta {
    /// Name of the operation (for instance `"blk.0.attn_q"`).
    pub name: String,
    /// Slot the fragment reads.
    pub input_slot: u32,
    /// Slot the fragment writes.
    pub output_slot: u32,
    /// Base of the fragment's weights in the pool.
    pub weight_base: u32,
    /// Number of rows.
    pub n_rows: u32,
    /// Number of columns.
    pub n_cols: u32,
}

/// A fragment with its metadata.
#[derive(Debug, Clone)]
pub struct OperationFragment {
    /// The instructions.
    pub fragment: Fragment,
    /// What the instructions read and write.
    pub meta: FragmentMeta,
}

/// `f` holds exactly these instructions and metadata.
pub open spec fn describes(
    f: OperationFragment,
    name: Seq<char>,
    ops: Seq<RpnOp>,
    input_slot: u32,
    output_slot: u32,
    weight_base: u32,
    n_rows: u32,
    n_cols: u32,
) -> bool {
    &&& f.fragment.ops@ == ops
    &&& f.meta.name@ == name
    &&& f.meta.input_slot == input_slot
    &&& f.meta.output_slot == output_slot
    &&& f.meta.weight_base == weight_base
    &&& f.meta.n_rows == n_rows
    &&& f.meta.n_cols == n_cols
}

/// Inner loop body of the matmul fragment: one column of one row.
pub open spec fn matmul_inner_body(input_slot: u32, weight_base: u32) -> Seq<RpnOp> {
    seq![
        RpnOp::Dup,
        RpnOp::VarIndexed { base: input_slot },
        RpnOp::Swap,
        RpnOp::Pick { depth: 2 },
        RpnOp::FAdd,
        RpnOp::VarIndexed { base: weight_base },
        RpnOp::Pick { depth: 3 },
        RpnOp::Swap,
        RpnOp::Swap,
        RpnOp::Bml,
        RpnOp::Bml,
    ]
}

/// Outer loop body of the matmul fragment: one row.
pub open spec fn matmul_outer_body(
    input_slot: u32,
    output_slot: u32,
    weight_base: u32,
    n_cols: u32,
    n_cols_const_id: u32,
) -> Seq<RpnOp> {
    seq![
        RpnOp::Zero,
        RpnOp::Dup,
        RpnOp::Const(n_cols_const_id),
        RpnOp::FMul,
        RpnOp::Loop { count: n_cols, body_len: 11 },
    ] + matmul_inner_body(input_slot, weight_base) + seq![
        RpnOp::Pick { depth: 3 },
        RpnOp::Swap,
        RpnOp::StoreResult { slot: output_slot },
        RpnOp::Drop,
        RpnOp::Drop,
        RpnOp::Drop,
    ]
}

/// Instructions of the matmul fragment `y = W · x`: a loop over the rows
/// around a loop over the columns.
pub open spec fn matmul_ops(
    input_slot: u32,
    output_slot: u32,
    weight_base: u32,
    n_rows: u32,
    n_cols: u32,
    n_cols_const_id: u32,
) -> Seq<RpnOp> {
    seq![RpnOp::Loop { count: n_rows, body_len: 22 }] + matmul_outer_body(
        input_slot,
        output_slot,
        weight_base,
        n_cols,
        n_cols_const_id,
    )
}

/// Instructions of the RMSNorm fragment: `y[i] = bml(x[i], w[i])`.
pub open spec fn rmsnorm_ops(input_slot: u32, output_slot: u32, weight_base: u32, n_elems: u32) -> Seq<
    RpnOp,
> {
    seq![
        RpnOp::Loop { count: n_elems, body_len: 4 },
        RpnOp::VarIndexed { base: input_slot },
        RpnOp::VarIndexed { base: weight_base },
        RpnOp::Bml,
        RpnOp::StoreResult { slot: output_slot },
    ]
}

/// Instructions of a two-step fragment: `y[i] = bml(bml(a[i], b[i]), c[i])`.
pub open spec fn two_step_ops(a: u32, b: u32, c: u32, output_slot: u32, n_elems: u32) -> Seq<RpnOp> {
    seq![
        RpnOp::Loop { count: n_elems, body_len: 6 },
        RpnOp::VarIndexed { base: a },
        RpnOp::VarIndexed { base: b },
        RpnOp::Bml,
        RpnOp::VarIndexed { base: c },
        RpnOp::Bml,
        RpnOp::StoreResult { slot: output_slot },
    ]
}

/// Instructions of the MLP fragment: `gate = bml(x[i], gate[i])`,
/// `up = bml(x[i], up[i])`, `act = bml(gate, up)`, then the down
/// projection `y[i] = bml(act, down[i])`.
pub open spec fn mlp_ops(
    input_slot: u32,
    gate_base: u32,
    up_base: u32,
    down_base: u32,
    output_slot: u32,
    n_elems: u32,
) -> Seq<RpnOp> {
    seq![
        RpnOp::Loop { count: n_elems, body_len: 10 },
        RpnOp::VarIndexed { base: input_slot },
        RpnOp::VarIndexed { base: gate_base },
        RpnOp::Bml,
        RpnOp::VarIndexed { base: input_slot },
        RpnOp::VarIndexed { base: up_base },
        RpnOp::Bml,
        RpnOp::Bml,
        RpnOp::VarIndexed { base: down_base },
        RpnOp::Bml,
        RpnOp::StoreResult { slot: output_slot },
    ]
}

/// Name of operation `suffix` of layer `layer`: `blk.<layer><suffix>`.
pub open spec fn layer_op_name(layer: u32, suffix: Seq<char>) -> Seq<char> {
    "blk."@ + decimal(layer as nat) + suffix
}

pub(crate) fn layer_name(layer: u32, suffix: &str) -> (s: String)
    ensures
        s@ == layer_op_name(layer, suffix@),
{
    let mut s = String::from_str("blk.");
    let d = decimal_string(layer);
    s.append(d.as_str());
    s.append(suffix);
    s
}

fn ops_from(ops: &[RpnOp]) -> (v: Vec<RpnOp>)
    ensures
        v@ == ops@,
{
    let mut v: Vec<RpnOp> = Vec::new();
    let mut i: usize = 0;
    while i < ops.len()
        invariant
            i <= ops@.len(),
            v@ == ops@.subrange(0, i as int),
        decreases ops@.len() - i,
    {
        v.push(ops[i]);
        assert(ops@.subrange(0, i + 1) =~= ops@.subrange(0, i as int).push(ops@[i as int]));
        i = i + 1;
    }
    assert(ops@.subrange(0, ops@.len() as int) =~= ops@);
    v
}

fn make(
    name: &str,
    ops: Vec<RpnOp>,
    input_slot: u32,
    output_slot: u32,
    weight_base: u32,
    n_rows: u32,
    n_cols: u32,
) -> (f: OperationFragment)
    ensures
        describes(f, name@, ops@, input_slot, output_slot, weight_base, n_rows, n_cols),
{
    OperationFragment {
        fragment: Fragment { ops },
        meta: FragmentMeta {
            name: name.to_owned(),
            input_slot,
            output_slot,
            weight_base,
            n_rows,
            n_cols,
        },
    }
}

/// Matmul fragment `y = W · x` over an `n_rows × n_cols` matrix;
/// `n_cols_const_id` is the pool constant that holds `n_cols`.
pub fn compile_matmul_fragment(
    name: &str,
    input_slot: u32,
    output_slot: u32,
    weight_base: u32,
    n_rows: u32,
    n_cols: u32,
    n_cols_const_id: u32,
) -> (f: OperationFragment)
    ensures
        describes(
            f,
            name@,
            matmul_ops(input_slot, output_slot, weight_base, n_rows, n_cols, n_cols_const_id),
            input_slot,
            output_slot,
            weight_base,
            n_rows,
            n_cols,
        ),
{
    let ops = [
        RpnOp::Loop { count: n_rows, body_len: 22 },
        RpnOp::Zero,
        RpnOp::Dup,
        RpnOp::Const(n_cols_const_id),
        RpnOp::FMul,
        RpnOp::Loop { count: n_cols, body_len: 11 },
        RpnOp::Dup,
        RpnOp::VarIndexed { base: input_slot },
        RpnOp::Swap,
        RpnOp::Pick { depth: 2 },
        RpnOp::FAdd,
        RpnOp::VarIndexed { base: weight_base },
        RpnOp::Pick { depth: 3 },
        RpnOp::Swap,
        RpnOp::Swap,
        RpnOp::Bml,
        RpnOp::Bml,
        RpnOp::Pick { depth: 3 },
        RpnOp::Swap,
        RpnOp::StoreResult { slot: output_slot },
        RpnOp::Drop,
        RpnOp::Drop,
        RpnOp::Drop,
    ];
    let v = ops_from(&ops);
    assert(v@ =~= matmul_ops(input_slot, output_slot, weight_base, n_rows, n_cols, n_cols_const_id));
    make(name, v, input_slot, output_slot, weight_base, n_rows, n_cols)
}

/// RMSNorm fragment over `n_elems` elements: `y[i] = bml(x[i], w[i])`.
pub fn compile_rmsnorm_fragment(
    name: &str,
    input_slot: u32,
    output_slot: u32,
    weight_base: u32,
    n_elems: u32,
) -> (f: OperationFragment)
    ensures
        describes(
            f,
            name@,
            rmsnorm_ops(input_slot, output_slot, weight_base, n_elems),
            input_slot,
            output_slot,
            weight_base,
            n_elems,
            1,
        ),
{
    let ops = [
        RpnOp::Loop { count: n_elems, body_len: 4 },
        RpnOp::VarIndexed { base: input_slot },
        RpnOp::VarIndexed { base: weight_base },
        RpnOp::Bml,
        RpnOp::StoreResult { slot: output_slot },
    ];
    let v = ops_from(&ops);
    assert(v@ =~= rmsnorm_ops(input_slot, output_slot, weight_base, n_elems));
    make(name, v, input_slot, output_slot, weight_base, n_elems, 1)
}

/// Simplified attention fragment: `y[i] = bml(bml(q[i], k[i]), v[i])`.
/// Its metadata reads `q_slot` and records `k_slot` as weight base.
pub fn compile_attention_fragment(
    name: &str,
    q_slot: u32,
    k_slot: u32,
    v_slot: u32,
    output_slot: u32,
    n_elems: u32,
) -> (f: OperationFragment)
    ensures
        describes(
            f,
            name@,
            two_step_ops(q_slot, k_slot, v_slot, output_slot, n_elems),
            q_slot,
            output_slot,
            k_slot,
            n_elems,
            1,
        ),
{
    let ops = [
        RpnOp::Loop { count: n_elems, body_len: 6 },
        RpnOp::VarIndexed { base: q_slot },
        RpnOp::VarIndexed { base: k_slot },
        RpnOp::Bml,
        RpnOp::VarIndexed { base: v_slot },
        RpnOp::Bml,
        RpnOp::StoreResult { slot: output_slot },
    ];
    let v = ops_from(&ops);
    assert(v@ =~= two_step_ops(q_slot, k_slot, v_slot, output_slot, n_elems));
    make(name, v, q_slot, output_slot, k_slot, n_elems, 1)
}

/// Simplified MLP fragment (see [`mlp_ops`]): gate and up projections of
/// `x[i]`, combined by `bml`, then the down projection.
pub fn compile_mlp_fragment(
    name: &str,
    input_slot: u32,
    output_slot: u32,
    gate_base: u32,
    up_base: u32,
    down_base: u32,
    n_elems: u32,
) -> (f: OperationFragment)
    ensures
        describes(
            f,
            name@,
            mlp_ops(input_slot, gate_base, up_base, down_base, output_slot, n_elems),
            input_slot,
            output_slot,
            gate_base,
            n_elems,
            1,
        ),
{
    let ops = [
        RpnOp::Loop { count: n_elems, body_len: 10 },
        RpnOp::VarIndexed { base: input_slot },
        RpnOp::VarIndexed { base: gate_base },
        RpnOp::Bml,
        RpnOp::VarIndexed { base: input_slot },
        RpnOp::VarIndexed { base: up_base },
        RpnOp::Bml,
        RpnOp::Bml,
        RpnOp::VarIndexed { base: down_base },
        RpnOp::Bml,
        RpnOp::StoreResult { slot: output_slot },
    ];
    let v = ops_from(&ops);
    assert(v@ =~= mlp_ops(input_slot, gate_base, up_base, down_base, output_slot, n_elems));
    make(name, v, input_slot, output_slot, gate_base, n_elems, 1)
}

/// The eight fragments of layer `layer`, in execution order: attention
/// norm, Q, K, V, attention, output projection, MLP norm, MLP. Slot
/// `input_slot + k` holds the output of fragment `k`.
pub fn compile_layer_fragments(
    layer: u32,
    input_slot: u32,
    n_embd: u32,
    norm_base: u32,
    q_base: u32,
    k_base: u32,
    v_base: u32,
    o_base: u32,
    ffn_norm_base: u32,
    gate_base: u32,
    up_base: u32,
    down_base: u32,
    n_cols_const_id: u32,
) -> (frags: Vec<OperationFragment>)
    requires
        input_slot + 9 <= u32::MAX,
    ensures
        frags@.len() == 8,
        describes(
            frags@[0],
            layer_op_name(layer, ".attn_norm"@),
            rmsnorm_ops(input_slot, (input_slot + 1) as u32, norm_base, n_embd),
            input_slot,
            (input_slot + 1) as u32,
            norm_base,
            n_embd,
            1,
        ),
        describes(
            frags@[1],
            layer_op_name(layer, ".attn_q"@),
            matmul_ops((input_slot + 1) as u32, (input_slot + 2) as u32, q_base, n_embd, n_embd, n_cols_const_id),
            (input_slot + 1) as u32,
            (input_slot + 2) as u32,
            q_base,
            n_embd,
            n_embd,
        ),
        describes(
            frags@[2],
            layer_op_name(layer, ".attn_k"@),
            matmul_ops((input_slot + 1) as u32, (input_slot + 3) as u32, k_base, n_embd, n_embd, n_cols_const_id),
            (input_slot + 1) as u32,
            (input_slot + 3) as u32,
            k_base,
            n_embd,
            n_embd,
        ),
        describes(
            frags@[3],
            layer_op_name(layer, ".attn_v"@),
            matmul_ops((input_slot + 1) as u32, (input_slot + 4) as u32, v_base, n_embd, n_embd, n_cols_const_id),
            (input_slot + 1) as u32,
            (input_slot + 4) as u32,
            v_base,
            n_embd,
            n_embd,
        ),
        describes(
            frags@[4],
            layer_op_name(layer, ".attention"@),
            two_step_ops((input_slot + 2) as u32, (input_slot + 3) as u32, (input_slot + 4) as u32, (input_slot + 5) as u32, n_embd),
            (input_slot + 2) as u32,
            (input_slot + 5) as u32,
            (input_slot + 3) as u32,
            n_embd,
            1,
        ),
        describes(
            frags@[5],
            layer_op_name(layer, ".attn_output"@),
            matmul_ops((input_slot + 5) as u32, (input_slot + 6) as u32, o_base, n_embd, n_embd, n_cols_const_id),
            (input_slot + 5) as u32,
            (input_slot + 6) as u32,
            o_base,
            n_embd,
            n_embd,
        ),
        describes(
            frags@[6],
            layer_op_name(layer, ".ffn_norm"@),
            rmsnorm_ops((input_slot + 6) as u32, (input_slot + 7) as u32, ffn_norm_base, n_embd),
            (input_slot + 6) as u32,
            (input_slot + 7) as u32,
            ffn_norm_base,
            n_embd,
            1,
        ),
        describes(
            frags@[7],
            layer_op_name(layer, ".mlp"@),
            mlp_ops((input_slot + 7) as u32, gate_base, up_base, down_base, (input_slot + 8) as u32, n_embd),
            (input_slot + 7) as u32,
            (input_slot + 8) as u32,
            gate_base,
            n_embd,
            1,
        ),
{
    let mut fragments: Vec<OperationFragment> = Vec::new();
    let norm_slot = input_slot + 1;
    let q_slot = input_slot + 2;
    let k_slot = input_slot + 3;
    let v_slot = input_slot + 4;
    let attn_slot = input_slot + 5;
    let o_slot = input_slot + 6;
    let mlp_norm_slot = input_slot + 7;
    let mlp_slot = input_slot + 8;

    let name = layer_name(layer, ".attn_norm");
    fragments.push(compile_rmsnorm_fragment(name.as_str(), input_slot, norm_slot, norm_base, n_embd));
    let name = layer_name(layer, ".attn_q");
    fragments.push(
        compile_matmul_fragment(name.as_str(), norm_slot, q_slot, q_base, n_embd, n_embd, n_cols_const_id),
    );
    let name = layer_name(layer, ".attn_k");
    fragments.push(
        compile_matmul_fragment(name.as_str(), norm_slot, k_slot, k_base, n_embd, n_embd, n_cols_const_id),
    );
    let name = layer_name(layer, ".attn_v");
    fragments.push(
        compile_matmul_fragment(name.as_str(), norm_slot, v_slot, v_base, n_embd, n_embd, n_cols_const_id),
    );
    let name = layer_name(layer, ".attention");
    fragments.push(compile_attention_fragment(name.as_str(), q_slot, k_slot, v_slot, attn_slot, n_embd));
    let name = layer_name(layer, ".attn_output");
    fragments.push(
        compile_matmul_fragment(name.as_str(), attn_slot, o_slot, o_base, n_embd, n_embd, n_cols_const_id),
    );
    let name = layer_name(layer, ".ffn_norm");
    fragments.push(compile_rmsnorm_fragment(name.as_str(), o_slot, mlp_norm_slot, ffn_norm_base, n_embd));
    let name = layer_name(layer, ".mlp");
    fragments.push(
        compile_mlp_fragment(name.as_str(), mlp_norm_slot, mlp_slot, gate_base, up_base, down_base, n_embd),
    );
    fragments
}


/// Each pass `i` of the attention fragment stores
/// `bml(bml(q[i], k[i]), v[i])` as element `i` of the output slot: the left
/// operand of the first `bml` is read from `q_slot` and the right one from
/// `k_slot` (`bml` is not commutative); the fragment is one loop of
/// `n_elems` passes over that body.
pub proof fn law_attention_stores_bml_of_q_k_then_v(
    f: OperationFragment,
    name: Seq<char>,
    q_slot: u32,
    k_slot: u32,
    v_slot: u32,
    output_slot: u32,
    n_elems: u32,
    i: u32,
)
    requires
        describes(f, name, two_step_ops(q_slot, k_slot, v_slot, output_slot, n_elems), q_slot, output_slot, k_slot, n_elems, 1),
    ensures
        f.fragment.ops@.len() == 7,
        f.fragment.ops@[0] == (RpnOp::Loop { count: n_elems, body_len: 6 }),
        expr_run(f.fragment.ops@.subrange(1, 7), i, Seq::empty()) == Some::<(Seq<Expr>, Seq<(u32, Expr)>)>(
            (
                Seq::empty(),
                seq![(output_slot, e_bml(e_bml(Expr::Elem(q_slot, i), Expr::Elem(k_slot, i)), Expr::Elem(v_slot, i)))],
            ),
        ),
{
    let p0 = Seq::<RpnOp>::empty();
    assert(expr_run(p0, i, Seq::empty()) == Some::<(Seq<Expr>, Seq<(u32, Expr)>)>((Seq::<Expr>::empty(), Seq::<(u32, Expr)>::empty())));
    let p1 = p0.push(RpnOp::VarIndexed { base: q_slot });
    assert(p1.drop_last() =~= p0);
    assert(expr_run(p1, i, Seq::empty()) == Some::<(Seq<Expr>, Seq<(u32, Expr)>)>((seq![Expr::Elem(q_slot, i)], Seq::<(u32, Expr)>::empty())));
    let p2 = p1.push(RpnOp::VarIndexed { base: k_slot });
    assert(p2.drop_last() =~= p1);
    assert(expr_run(p2, i, Seq::empty()) == Some::<(Seq<Expr>, Seq<(u32, Expr)>)>((seq![Expr::Elem(q_slot, i), Expr::Elem(k_slot, i)], Seq::<(u32, Expr)>::empty())));
    let p3 = p2.push(RpnOp::Bml);
    assert(p3.drop_last() =~= p2);
    assert(expr_run(p3, i, Seq::empty()) == Some::<(Seq<Expr>, Seq<(u32, Expr)>)>((seq![e_bml(Expr::Elem(q_slot, i), Expr::Elem(k_slot, i))], Seq::<(u32, Expr)>::empty())));
    let p4 = p3.push(RpnOp::VarIndexed { base: v_slot });
    assert(p4.drop_last() =~= p3);
    assert(expr_run(p4, i, Seq::empty()) == Some::<(Seq<Expr>, Seq<(u32, Expr)>)>((seq![e_bml(Expr::Elem(q_slot, i), Expr::Elem(k_slot, i)), Expr::Elem(v_slot, i)], Seq::<(u32, Expr)>::empty())));
    let p5 = p4.push(RpnOp::Bml);
    assert(p5.drop_last() =~= p4);
    assert(expr_run(p5, i, Seq::empty()) == Some::<(Seq<Expr>, Seq<(u32, Expr)>)>((seq![e_bml(e_bml(Expr::Elem(q_slot, i), Expr::Elem(k_slot, i)), Expr::Elem(v_slot, i))], Seq::<(u32, Expr)>::empty())));
    let p6 = p5.push(RpnOp::StoreResult { slot: output_slot });
    assert(p6.drop_last() =~= p5);
    assert(expr_run(p6, i, Seq::empty()) == Some::<(Seq<Expr>, Seq<(u32, Expr)>)>((Seq::<Expr>::empty(), seq![(output_slot, e_bml(e_bml(Expr::Elem(q_slot, i), Expr::Elem(k_slot, i)), Expr::Elem(v_slot, i)))])));
    assert(p6 =~= f.fragment.ops@.subrange(1, 7));
}

} // verus!
