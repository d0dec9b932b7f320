use bml::op_fragments::{
    compile_attention_fragment, compile_layer_fragments, compile_matmul_fragment,
    compile_mlp_fragment, compile_rmsnorm_fragment,
};
use bml::rpn::RpnOp;

#[test]
fn matmul_fragment_structure() {
    let frag = compile_matmul_fragment("test_q", 0, 1, 100, 4, 4, 0);
    assert_eq!(frag.meta.name, "test_q");
    assert_eq!(frag.meta.input_slot, 0);
    assert_eq!(frag.meta.output_slot, 1);
    assert_eq!(frag.meta.weight_base, 100);
    assert_eq!(frag.meta.n_rows, 4);
    assert_eq!(frag.meta.n_cols, 4);
    assert!(matches!(frag.fragment.ops[0], RpnOp::Loop { .. }));
}

#[test]
fn rmsnorm_fragment_structure() {
    let frag = compile_rmsnorm_fragment("test_norm", 0, 1, 50, 8);
    assert_eq!(frag.meta.name, "test_norm");
    assert_eq!(frag.meta.n_rows, 8);
    assert!(matches!(frag.fragment.ops[0], RpnOp::Loop { count: 8, .. }));
}

#[test]
fn attention_fragment_structure() {
    let frag = compile_attention_fragment("test_attn", 1, 2, 3, 4, 8);
    assert_eq!(frag.meta.input_slot, 1);
    assert_eq!(frag.meta.output_slot, 4);
    assert!(matches!(frag.fragment.ops[0], RpnOp::Loop { count: 8, .. }));
}

#[test]
fn mlp_fragment_structure() {
    let frag = compile_mlp_fragment("test_mlp", 0, 1, 10, 20, 30, 8);
    assert_eq!(frag.meta.name, "test_mlp");
    assert_eq!(frag.meta.weight_base, 10);
    assert!(matches!(frag.fragment.ops[0], RpnOp::Loop { count: 8, .. }));
}

#[test]
fn mlp_fragment_applies_the_down_projection() {
    let frag = compile_mlp_fragment("test_mlp", 0, 1, 10, 20, 30, 8);
    assert_eq!(
        frag.fragment.ops,
        vec![
            RpnOp::Loop { count: 8, body_len: 10 },
            RpnOp::VarIndexed { base: 0 },
            RpnOp::VarIndexed { base: 10 },
            RpnOp::Bml,
            RpnOp::VarIndexed { base: 0 },
            RpnOp::VarIndexed { base: 20 },
            RpnOp::Bml,
            RpnOp::Bml,
            RpnOp::VarIndexed { base: 30 },
            RpnOp::Bml,
            RpnOp::StoreResult { slot: 1 },
        ]
    );
}

#[test]
fn layer_fragments_count() {
    let frags =
        compile_layer_fragments(0, 0, 2048, 0, 100, 200, 300, 400, 500, 600, 700, 800, 0);
    assert_eq!(frags.len(), 8);
    assert_eq!(frags[0].meta.input_slot, 0);
    assert_eq!(frags[0].meta.output_slot, 1);
    assert_eq!(frags[1].meta.input_slot, 1);
    assert_eq!(frags[1].meta.output_slot, 2);
}

#[test]
fn fragment_size_under_32kb() {
    let frag = compile_matmul_fragment("test", 0, 1, 0, 2048, 2048, 0);
    let size = frag.fragment.ops.len() * std::mem::size_of::<RpnOp>();
    assert!(size < 32 * 1024, "fragment size {size} >= 32KB");
}

#[test]
fn layer_fragment_names_carry_layer_number() {
    let frags =
        compile_layer_fragments(17, 3, 64, 0, 100, 200, 300, 400, 500, 600, 700, 800, 5);
    let names: Vec<&str> = frags.iter().map(|f| f.meta.name.as_str()).collect();
    assert_eq!(
        names,
        vec![
            "blk.17.attn_norm",
            "blk.17.attn_q",
            "blk.17.attn_k",
            "blk.17.attn_v",
            "blk.17.attention",
            "blk.17.attn_output",
            "blk.17.ffn_norm",
            "blk.17.mlp",
        ]
    );
    let slots: Vec<(u32, u32)> =
        frags.iter().map(|f| (f.meta.input_slot, f.meta.output_slot)).collect();
    assert_eq!(slots, vec![(3, 4), (4, 5), (4, 6), (4, 7), (5, 8), (8, 9), (9, 10), (10, 11)]);
    assert_eq!(frags[4].meta.weight_base, 6);
}

#[test]
fn matmul_fragment_exact_length() {
    let frag = compile_matmul_fragment("m", 2, 3, 40, 16, 8, 9);
    assert_eq!(frag.fragment.ops.len(), 23);
    assert_eq!(frag.fragment.ops[0], RpnOp::Loop { count: 16, body_len: 22 });
    assert_eq!(frag.fragment.ops[5], RpnOp::Loop { count: 8, body_len: 11 });
    assert_eq!(frag.fragment.ops[3], RpnOp::Const(9));
    assert_eq!(frag.fragment.ops[19], RpnOp::StoreResult { slot: 3 });
}
