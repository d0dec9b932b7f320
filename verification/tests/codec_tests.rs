use bml::ast::NodeId;
use bml::codec::FormatError;
use bml::fragment::{
    fragment_program, BmlGraph, Fragment, BMLGRAPH_MAGIC, DEFAULT_L1_THRESHOLD, L3_THRESHOLD,
};
use bml::hash_cons::HashConsRegistry;
use bml::rpn::{linearize, RpnOp, RpnProgram};
use bml::shm::{decode_shm_fragment, encode_shm_fragment};
use bml::soa::NodeSoA;

fn bml_op(x: f64, y: f64) -> f64 {
    if y < 0.0 || y.is_nan() {
        return f64::NAN;
    }
    let log2_y = if y == 0.0 { f64::NEG_INFINITY } else { y.log2() };
    x.exp2() - log2_y
}

/// Value of a straight-line program of `One`, `Dup`, `Pick` and `Bml`.
fn run(ops: &[RpnOp]) -> f64 {
    let mut stack: Vec<f64> = Vec::new();
    for op in ops {
        match op {
            RpnOp::One => stack.push(1.0),
            RpnOp::Zero => stack.push(0.0),
            RpnOp::Dup => stack.push(*stack.last().unwrap()),
            RpnOp::Pick { depth } => stack.push(stack[stack.len() - 1 - *depth as usize]),
            RpnOp::Bml => {
                let b = stack.pop().unwrap();
                let a = stack.pop().unwrap();
                stack.push(bml_op(a, b));
            }
            other => panic!("not straight-line: {other:?}"),
        }
    }
    stack.pop().unwrap()
}

fn bml(reg: &mut HashConsRegistry, left: NodeId, right: NodeId) -> NodeId {
    if let Some((a, b)) = reg.const_operands(left, right) {
        let v = bml_op(f64::from_bits(a), f64::from_bits(b));
        if v.is_finite() {
            return reg.const_value(v.to_bits());
        }
    }
    reg.bml_node(left, right)
}

fn build_program(n_ops: usize) -> RpnProgram {
    let mut reg = HashConsRegistry::new();
    let one = reg.one();
    let two = bml(&mut reg, one, one);
    let mut node = two;
    for _ in 0..n_ops / 3 {
        node = bml(&mut reg, node, two);
    }
    let soa = reg.into_soa();
    linearize(&soa, node)
}

#[test]
fn fragment_small_program() {
    let program = build_program(100);
    let graph = fragment_program(&program, DEFAULT_L1_THRESHOLD);
    assert_eq!(graph.num_fragments(), 1);
    assert!(graph.all_fragments_under_threshold());
}

#[test]
fn fragment_large_program() {
    let program = build_program(10_000);
    let graph = fragment_program(&program, DEFAULT_L1_THRESHOLD);
    assert!(graph.num_fragments() > 1);
    assert!(graph.all_fragments_under_threshold());
}

#[test]
fn fragment_threshold_configurable() {
    let program = build_program(10_000);
    let graph = fragment_program(&program, L3_THRESHOLD);
    assert_eq!(graph.num_fragments(), 1);
    assert!(graph.all_fragments_under_threshold());
}

#[test]
fn fragment_small_threshold() {
    let program = build_program(1000);
    let graph = fragment_program(&program, 24);
    assert!(graph.num_fragments() > 1);
    assert!(graph.all_fragments_under_threshold());
}

#[test]
fn fragment_serialize_deserialize_roundtrip() {
    let program = build_program(1000);
    let graph = fragment_program(&program, DEFAULT_L1_THRESHOLD);
    let bytes = graph.serialize();
    let restored = BmlGraph::deserialize(&bytes, DEFAULT_L1_THRESHOLD).unwrap();
    assert_eq!(graph.fragments.len(), restored.fragments.len());
    for (a, b) in graph.fragments.iter().zip(restored.fragments.iter()) {
        assert_eq!(a.ops, b.ops);
    }
}

#[test]
fn deserialize_rejects_bad_magic() {
    let bytes = [0xDE, 0xAD, 0xBE, 0xEF, 1, 0, 0, 0, 0, 0, 0, 0];
    let result = BmlGraph::deserialize(&bytes, DEFAULT_L1_THRESHOLD);
    assert_eq!(result.unwrap_err(), FormatError::BadMagic(0xEFBEADDE));
}

#[test]
fn bmlgraph_magic_value() {
    assert_eq!(BMLGRAPH_MAGIC, 0x4C4D4247);
}

#[test]
fn empty_program_produces_empty_graph() {
    let program = RpnProgram::new();
    let graph = fragment_program(&program, DEFAULT_L1_THRESHOLD);
    assert_eq!(graph.num_fragments(), 0);
}

#[test]
fn deserialize_error_kinds() {
    assert_eq!(BmlGraph::deserialize(&[1, 2, 3], 64).unwrap_err(), FormatError::TooSmall);
    let mut bytes = Vec::new();
    bytes.extend_from_slice(&BMLGRAPH_MAGIC.to_le_bytes());
    bytes.extend_from_slice(&7u32.to_le_bytes());
    bytes.extend_from_slice(&0u32.to_le_bytes());
    assert_eq!(BmlGraph::deserialize(&bytes, 64).unwrap_err(), FormatError::BadVersion(7));
    let mut bytes = Vec::new();
    bytes.extend_from_slice(&BMLGRAPH_MAGIC.to_le_bytes());
    bytes.extend_from_slice(&1u32.to_le_bytes());
    bytes.extend_from_slice(&1u32.to_le_bytes());
    assert_eq!(BmlGraph::deserialize(&bytes, 64).unwrap_err(), FormatError::TruncatedLength);
    bytes.extend_from_slice(&2u32.to_le_bytes());
    bytes.push(4);
    bytes.push(1);
    assert_eq!(BmlGraph::deserialize(&bytes, 64).unwrap_err(), FormatError::TruncatedOperand(4));
    let n = bytes.len();
    bytes.truncate(n - 2);
    bytes.push(99);
    assert_eq!(BmlGraph::deserialize(&bytes, 64).unwrap_err(), FormatError::UnknownTag(99));
    let n = bytes.len();
    bytes.truncate(n - 1);
    bytes.push(0);
    assert_eq!(BmlGraph::deserialize(&bytes, 64).unwrap_err(), FormatError::TruncatedOp);
}

#[test]
fn deserialize_refuses_tags_above_five() {
    // One fragment of two instructions: `One`, then tag 6, which only the
    // other formats know (`Zero` there).
    let mut bytes = Vec::new();
    bytes.extend_from_slice(&BMLGRAPH_MAGIC.to_le_bytes());
    bytes.extend_from_slice(&1u32.to_le_bytes());
    bytes.extend_from_slice(&1u32.to_le_bytes());
    bytes.extend_from_slice(&2u32.to_le_bytes());
    bytes.push(0);
    bytes.push(6);
    assert_eq!(BmlGraph::deserialize(&bytes, 64).unwrap_err(), FormatError::UnknownTag(6));
    let n = bytes.len();
    bytes[n - 1] = 5;
    bytes.extend_from_slice(&9u32.to_le_bytes());
    let g = BmlGraph::deserialize(&bytes, 64).unwrap();
    assert_eq!(g.fragments[0].ops, vec![RpnOp::One, RpnOp::Const(9)]);
}

#[test]
fn greedy_cut_sizes() {
    let mut program = RpnProgram::new();
    for _ in 0..10 {
        program.push(RpnOp::One);
    }
    let s = std::mem::size_of::<RpnOp>();
    let graph = fragment_program(&program, 3 * s);
    let lens: Vec<usize> = graph.fragments.iter().map(|f| f.len()).collect();
    assert_eq!(lens, vec![3, 3, 3, 1]);
    assert_eq!(graph.total_byte_size(), 10 * s);
}

#[test]
fn linearize_two() {
    let mut soa = NodeSoA::new();
    let one_a = soa.push_one();
    let one_b = soa.push_one();
    let root = soa.push_bml(one_a, one_b);
    let program = linearize(&soa, root);
    assert_eq!(program.ops, vec![RpnOp::One, RpnOp::One, RpnOp::Bml]);
}

#[test]
fn shared_subtree_uses_dup() {
    let mut soa = NodeSoA::new();
    let one = soa.push_one();
    let two = soa.push_bml(one, one);
    let root = soa.push_bml(two, two);
    let program = linearize(&soa, root);
    assert_eq!(program.ops, vec![RpnOp::One, RpnOp::Dup, RpnOp::Bml, RpnOp::Dup, RpnOp::Bml]);
    assert!((run(&program.ops) - 3.0).abs() < 1e-9);
}

#[test]
fn loop_program_smaller_than_unrolled() {
    let n: usize = 100;
    let m: usize = 3;
    let mut loop_prog = RpnProgram::new();
    loop_prog.push(RpnOp::One);
    loop_prog.push(RpnOp::One);
    loop_prog.push(RpnOp::Loop { count: n as u32, body_len: m as u32 });
    loop_prog.push(RpnOp::One);
    loop_prog.push(RpnOp::One);
    loop_prog.push(RpnOp::Bml);
    let mut unrolled = RpnProgram::new();
    unrolled.push(RpnOp::One);
    unrolled.push(RpnOp::One);
    for _ in 0..n {
        unrolled.push(RpnOp::One);
        unrolled.push(RpnOp::One);
        unrolled.push(RpnOp::Bml);
    }
    assert_eq!(loop_prog.len(), m + 3);
    assert_eq!(unrolled.len(), n * m + 2);
    assert!(loop_prog.len() < unrolled.len());
}

#[test]
fn write_read_fragment_roundtrip() {
    let frag = Fragment { ops: vec![RpnOp::One; 10] };
    let bytes = encode_shm_fragment(&frag);
    let restored = decode_shm_fragment(&bytes).unwrap();
    assert_eq!(frag.ops, restored.ops);
}

#[test]
fn write_read_fragment_with_all_op_types() {
    let frag = Fragment {
        ops: vec![
            RpnOp::One,
            RpnOp::Zero,
            RpnOp::Bml,
            RpnOp::Dup,
            RpnOp::Loop { count: 5, body_len: 2 },
            RpnOp::Var(42),
            RpnOp::Const(99),
            RpnOp::VarIndexed { base: 7 },
            RpnOp::StoreResult { slot: 3 },
            RpnOp::FAdd,
            RpnOp::FMul,
            RpnOp::Pick { depth: 2 },
            RpnOp::Drop,
            RpnOp::Swap,
        ],
    };
    let bytes = encode_shm_fragment(&frag);
    assert_eq!(&bytes[0..4], &14u32.to_le_bytes());
    let restored = decode_shm_fragment(&bytes).unwrap();
    assert_eq!(frag.ops, restored.ops);
}

#[test]
fn shm_decode_errors() {
    assert_eq!(decode_shm_fragment(&[1, 0]).unwrap_err(), FormatError::TooSmall);
    assert_eq!(decode_shm_fragment(&[1, 0, 0, 0]).unwrap_err(), FormatError::TruncatedOp);
    assert_eq!(decode_shm_fragment(&[1, 0, 0, 0, 3, 1]).unwrap_err(), FormatError::TruncatedOperand(3));
}

#[test]
fn shared_value_no_longer_on_the_stack_is_emitted_again() {
    // bml(two, one) where two = bml(one, one): when `one` is reached the
    // third time its value was consumed by `two`, so it is emitted again.
    let mut soa = NodeSoA::new();
    let one = soa.push_one();
    let two = soa.push_bml(one, one);
    let root = soa.push_bml(two, one);
    let program = linearize(&soa, root);
    assert_eq!(program.ops, vec![RpnOp::One, RpnOp::Dup, RpnOp::Bml, RpnOp::One, RpnOp::Bml]);
    assert_eq!(run(&program.ops), 4.0);
}

#[test]
fn shared_value_below_the_top_is_picked() {
    // bml(one, bml(two, one)) with two = bml(one, one): `one` stays at
    // the bottom of the stack while `two` is computed above it.
    let mut soa = NodeSoA::new();
    let one = soa.push_one();
    let two = soa.push_bml(one, one);
    let inner = soa.push_bml(two, one);
    let root = soa.push_bml(one, inner);
    let program = linearize(&soa, root);
    assert_eq!(
        program.ops,
        vec![RpnOp::One, RpnOp::Dup, RpnOp::Dup, RpnOp::Bml, RpnOp::Pick { depth: 1 }, RpnOp::Bml, RpnOp::Bml]
    );
    assert_eq!(run(&program.ops), bml_op(1.0, 4.0));
}

#[test]
fn tree_without_sharing_has_no_dup() {
    let mut soa = NodeSoA::new();
    let a = soa.push_one();
    let b = soa.push_zero();
    let root = soa.push_bml(a, b);
    let program = linearize(&soa, root);
    assert_eq!(program.ops, vec![RpnOp::One, RpnOp::Zero, RpnOp::Bml]);
}
