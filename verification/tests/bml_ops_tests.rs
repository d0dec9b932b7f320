use bml::bml_ops::{
    bml_dot_program, bml_matmul_program, bml_rmsnorm_program, bml_rope_program, bml_swiglu_program,
};
use bml::hot_loop::{LoopDriver, Step};
use bml::rpn::RpnOp;

#[test]
fn bml_dot_program_structure() {
    let prog = bml_dot_program(0, 100, 4);
    assert!(prog.len() > 6);
    assert!(prog.ops.iter().any(|op| matches!(op, RpnOp::Loop { count: 4, .. })));
}

#[test]
fn bml_matmul_program_structure() {
    let prog = bml_matmul_program(0, 100, 4, 3, 0);
    let n_stores = prog.ops.iter().filter(|op| matches!(op, RpnOp::StoreResult { .. })).count();
    assert_eq!(n_stores, 3);
    let n_loops = prog.ops.iter().filter(|op| matches!(op, RpnOp::Loop { .. })).count();
    assert_eq!(n_loops, 3);
}

#[test]
fn bml_matmul_bytecode_size() {
    let prog = bml_matmul_program(0, 100, 2048, 2048, 0);
    let total_bytes: usize = prog
        .ops
        .iter()
        .map(|op| match op {
            RpnOp::One
            | RpnOp::Zero
            | RpnOp::Bml
            | RpnOp::Dup
            | RpnOp::FAdd
            | RpnOp::FMul
            | RpnOp::Drop
            | RpnOp::Swap => 1,
            RpnOp::Var(_)
            | RpnOp::Const(_)
            | RpnOp::VarIndexed { .. }
            | RpnOp::StoreResult { .. }
            | RpnOp::Pick { .. } => 5,
            RpnOp::Loop { .. } => 9,
        })
        .sum();
    println!(
        "Matmul 2048x2048: {} ops, {} bytes ({:.1} KB)",
        prog.len(),
        total_bytes,
        total_bytes as f64 / 1024.0
    );
    assert!(total_bytes < 80_000);
}

#[test]
fn bml_rmsnorm_program_structure() {
    let prog = bml_rmsnorm_program(0, 100, 4, 200, 0);
    assert!(prog.ops.iter().any(|op| matches!(op, RpnOp::Loop { count: 4, .. })));
}

#[test]
fn bml_rope_uses_bml() {
    let prog = bml_rope_program(0, 1, 100, 101, 0);
    let n_bml = prog.ops.iter().filter(|op| matches!(op, RpnOp::Bml)).count();
    assert!(n_bml > 0);
    let n_fmul = prog.ops.iter().filter(|op| matches!(op, RpnOp::FMul)).count();
    assert_eq!(n_fmul, 2);
}

#[test]
fn dot_program_exact_ops() {
    let prog = bml_dot_program(3, 7, 5);
    assert_eq!(
        prog.ops,
        vec![
            RpnOp::Zero,
            RpnOp::Loop { count: 5, body_len: 6 },
            RpnOp::Dup,
            RpnOp::VarIndexed { base: 3 },
            RpnOp::Swap,
            RpnOp::VarIndexed { base: 7 },
            RpnOp::FMul,
            RpnOp::FAdd,
        ]
    );
}

#[test]
fn matmul_column_weight_bases() {
    let prog = bml_matmul_program(0, 100, 4, 3, 9);
    assert_eq!(prog.len(), 38);
    assert_eq!(prog.ops[0], RpnOp::Zero);
    assert_eq!(prog.ops[6], RpnOp::VarIndexed { base: 100 });
    assert_eq!(prog.ops[18], RpnOp::VarIndexed { base: 104 });
    assert_eq!(prog.ops[30], RpnOp::VarIndexed { base: 108 });
    assert_eq!(prog.ops[33], RpnOp::Pick { depth: 1 });
    assert_eq!(prog.ops[34], RpnOp::StoreResult { slot: 9 });
    assert_eq!(prog.ops[37], RpnOp::Drop);
    assert!(bml_matmul_program(0, 100, 4, 0, 9).is_empty());
}

#[test]
fn swiglu_and_rmsnorm_bodies() {
    let s = bml_swiglu_program(10, 20, 8, 3, 4, 5, 0);
    assert_eq!(s.len(), 39);
    assert_eq!(s.ops[1], RpnOp::Loop { count: 8, body_len: 37 });
    assert!(s.ops.contains(&RpnOp::Const(3)));
    assert!(s.ops.contains(&RpnOp::Const(4)));
    assert!(s.ops.contains(&RpnOp::Const(5)));
    assert!(s.ops.contains(&RpnOp::VarIndexed { base: 10 }));
    assert!(s.ops.contains(&RpnOp::VarIndexed { base: 20 }));
    let r = bml_rmsnorm_program(1, 2, 16, 7, 0);
    assert_eq!(r.len(), 10);
    assert_eq!(r.ops[1], RpnOp::Loop { count: 16, body_len: 8 });
    assert_eq!(r.ops[4], RpnOp::Const(7));
}

/// `2^x - log2(y)`.
fn bml_value(x: f64, y: f64) -> f64 {
    if y < 0.0 || y.is_nan() {
        return f64::NAN;
    }
    let log2_y = if y == 0.0 { f64::NEG_INFINITY } else { y.log2() };
    x.exp2() - log2_y
}

/// Runs `ops` as the hot loop does (each loop pass pushes its number),
/// with `VarIndexed { base }` reading `data[base + offset]` and `Const(c)`
/// reading `consts[c]`; returns the stack and the stores `(slot, offset,
/// value)`.
fn run_with_data(ops: &[RpnOp], data: &[f64], consts: &[f64]) -> (Vec<f64>, Vec<(u32, u32, f64)>) {
    let mut stack: Vec<f64> = Vec::new();
    let mut stores = Vec::new();
    let mut driver = LoopDriver::new(ops);
    while let Some(step) = driver.next_step(ops) {
        match step {
            Step::Counter(k) => stack.push(k as f64),
            Step::Exec(op) => match op {
                RpnOp::One => stack.push(1.0),
                RpnOp::Zero => stack.push(0.0),
                RpnOp::Const(c) => stack.push(consts[c as usize]),
                RpnOp::VarIndexed { base } => {
                    let off = stack.pop().unwrap() as usize;
                    stack.push(data[base as usize + off]);
                }
                RpnOp::StoreResult { slot } => {
                    let off = stack.pop().unwrap() as u32;
                    let v = stack.pop().unwrap();
                    stores.push((slot, off, v));
                }
                RpnOp::Bml | RpnOp::FAdd | RpnOp::FMul => {
                    let b = stack.pop().unwrap();
                    let a = stack.pop().unwrap();
                    stack.push(match op {
                        RpnOp::Bml => bml_value(a, b),
                        RpnOp::FAdd => a + b,
                        _ => a * b,
                    });
                }
                RpnOp::Dup => stack.push(*stack.last().unwrap()),
                RpnOp::Pick { depth } => stack.push(stack[stack.len() - 1 - depth as usize]),
                RpnOp::Drop => {
                    stack.pop();
                }
                RpnOp::Swap => {
                    let n = stack.len();
                    stack.swap(n - 1, n - 2);
                }
                other => panic!("unexpected {other:?}"),
            },
        }
    }
    (stack, stores)
}

#[test]
fn matmul_stores_column_j_at_offset_j() {
    // x at 0..3; column j of W at 10 + 3 j.
    let x = [1.0, 2.0, 3.0];
    let w = [[0.5, -1.0, 2.0], [4.0, 0.25, -0.5]];
    let mut data = vec![0.0; 16];
    data[..3].copy_from_slice(&x);
    data[10..13].copy_from_slice(&w[0]);
    data[13..16].copy_from_slice(&w[1]);
    let prog = bml_matmul_program(0, 10, 3, 2, 7);
    let (stack, stores) = run_with_data(&prog.ops, &data, &[]);
    assert!(stack.is_empty());
    assert_eq!(stores, vec![(7, 0, 4.5), (7, 1, 3.0)]);
}

#[test]
fn swiglu_applies_the_sigmoid() {
    let gate = [0.5, -1.0, 2.0];
    let up = [1.5, 2.0, -0.5];
    let mut data = vec![0.0; 6];
    data[..3].copy_from_slice(&gate);
    data[3..].copy_from_slice(&up);
    let consts = [1.7, std::f64::consts::LOG2_E, 1.0];
    let prog = bml_swiglu_program(0, 3, 3, 0, 1, 2, 0);
    let (stack, _) = run_with_data(&prog.ops, &data, &consts);
    let expected: f64 = (0..3)
        .map(|i| gate[i] * (1.0 / (1.0 + (-1.7 * gate[i]).exp())) * up[i])
        .sum();
    assert_eq!(stack.len(), 1);
    assert!((stack[0] - expected).abs() < 1e-9, "{} vs {expected}", stack[0]);
}

#[test]
fn rope_program_length() {
    let prog = bml_rope_program(0, 1, 100, 101, 0);
    assert_eq!(prog.len(), 19);
    assert_eq!(prog.ops[0], RpnOp::Var(0));
    assert_eq!(prog.ops[18], RpnOp::FAdd);
}
