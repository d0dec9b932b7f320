//! Programs built and linearized by the library, run on `f64` stacks in
//! the order that the library's drivers hand out.

use bml::ast::{NodeId, NodeKind};
use bml::dag::Dag;
use bml::fragment::{fragment_program, BmlGraph, DEFAULT_L1_THRESHOLD};
use bml::hash_cons::HashConsRegistry;
use bml::hot_loop::{LoopDriver, Step};
use bml::program_flow::{Flow, FragmentDriver, ProgramDriver};
use bml::rpn::{linearize, RpnOp, RpnProgram};
use bml::transformer::BMLTransformer;

/// `2^x - log2(y)`, the BML operator on `f64`.
fn bml_f64(x: f64, y: f64) -> f64 {
    if y < 0.0 || y.is_nan() {
        return f64::NAN;
    }
    let log2_y = if y == 0.0 { f64::NEG_INFINITY } else { y.log2() };
    let exp_x = if x.is_nan() { f64::NAN } else { x.exp2() };
    exp_x - log2_y
}

/// One instruction without inputs or weights (`Var` and `Const` read
/// nothing and push `NaN`).
fn step(stack: &mut Vec<f64>, op: RpnOp, in_loop: bool) {
    match op {
        RpnOp::One => stack.push(1.0),
        RpnOp::Zero => stack.push(0.0),
        RpnOp::Var(_) | RpnOp::Const(_) => stack.push(f64::NAN),
        RpnOp::VarIndexed { .. } => {
            let _ = stack.pop();
            stack.push(if in_loop { f64::NAN } else { 0.0 });
        }
        RpnOp::StoreResult { .. } => {
            let _ = stack.pop();
            let _ = stack.pop();
        }
        RpnOp::Bml => {
            let b = stack.pop().unwrap();
            let a = stack.pop().unwrap();
            stack.push(bml_f64(a, b));
        }
        RpnOp::Dup => {
            let v = *stack.last().unwrap();
            stack.push(v);
        }
        RpnOp::FAdd => {
            let b = stack.pop().unwrap_or(0.0);
            let a = stack.pop().unwrap_or(0.0);
            stack.push(a + b);
        }
        RpnOp::FMul => {
            let b = stack.pop().unwrap_or(0.0);
            let a = stack.pop().unwrap_or(0.0);
            stack.push(a * b);
        }
        RpnOp::Pick { depth } => {
            let idx = stack.len().saturating_sub(1 + depth as usize);
            let v = stack.get(idx).copied().unwrap_or(0.0);
            stack.push(v);
        }
        RpnOp::Drop => {
            stack.pop();
        }
        RpnOp::Swap => {
            let len = stack.len();
            if len >= 2 {
                stack.swap(len - 1, len - 2);
            }
        }
        RpnOp::Loop { .. } => unreachable!("the drivers expand loops"),
    }
}

/// Value of a program, run as the reference evaluator runs it.
fn evaluate(program: &RpnProgram) -> f64 {
    let ops = &program.ops;
    let mut stack = Vec::new();
    let mut driver = ProgramDriver::new(ops);
    while let Some(s) = driver.next_step(ops) {
        match s {
            Flow::Exec(op) => step(&mut stack, op, false),
            Flow::ExecInLoop(op) => step(&mut stack, op, true),
            Flow::Abort => panic!("max 2 loop nesting levels, and loop bodies end inside the program"),
        }
    }
    stack.pop().unwrap_or(f64::NAN)
}

/// Value of a fragmented graph: its fragments in order on one stack.
fn evaluate_graph(graph: &BmlGraph) -> f64 {
    let mut stack = Vec::new();
    for fragment in &graph.fragments {
        let ops = &fragment.ops;
        let mut driver = FragmentDriver::new(ops);
        while let Some(s) = driver.next_step(ops) {
            match s {
                Flow::Exec(op) | Flow::ExecInLoop(op) => step(&mut stack, op, false),
                Flow::Abort => panic!("nested loops are not supported within a fragment"),
            }
        }
    }
    stack.pop().unwrap_or(f64::NAN)
}

/// Value of fragments run by the hot loop, which pushes the number of
/// each loop pass.
fn run_hot(fragments: &[&[RpnOp]]) -> f64 {
    let mut stack = Vec::with_capacity(256);
    for ops in fragments {
        let mut driver = LoopDriver::new(ops);
        while let Some(s) = driver.next_step(ops) {
            match s {
                Step::Counter(k) => stack.push(k as f64),
                Step::Exec(op) => step(&mut stack, op, false),
            }
        }
    }
    stack.pop().unwrap_or(f64::NAN)
}

/// Value of the DAG node `id`, without inputs or weights.
fn evaluate_node(dag: &Dag, id: NodeId) -> f64 {
    let n = dag.get(id);
    match n.kind {
        NodeKind::One => 1.0,
        NodeKind::Zero => 0.0,
        NodeKind::Var(_) | NodeKind::Const(_) => f64::NAN,
        NodeKind::Bml => bml_f64(evaluate_node(dag, n.left.unwrap()), evaluate_node(dag, n.right.unwrap())),
    }
}

fn evaluate_dag(dag: &Dag) -> f64 {
    evaluate_node(dag, dag.root)
}

/// `BML(left, right)` with constant folding.
fn fold(reg: &mut HashConsRegistry, left: NodeId, right: NodeId) -> NodeId {
    if let Some((a, b)) = reg.const_operands(left, right) {
        let v = bml_f64(f64::from_bits(a), f64::from_bits(b));
        if v.is_finite() {
            return reg.const_value(v.to_bits());
        }
    }
    reg.bml_node(left, right)
}

fn program_of(ops: &[RpnOp]) -> RpnProgram {
    let mut p = RpnProgram::new();
    for op in ops {
        p.push(*op);
    }
    p
}

fn exp2_program() -> (RpnProgram, Dag) {
    let mut t = BMLTransformer::new();
    let two = t.two();
    let two2 = t.two();
    let three = t.bml(two, two2);
    let root = t.exp2(three);
    let soa = t.into_soa();
    let program = linearize(&soa, root);
    (program, Dag::new(soa, root))
}

#[test]
fn linearize_exp2() {
    let (program, dag) = exp2_program();
    assert!((evaluate(&program) - 8.0).abs() < 1e-9);
    assert!((evaluate(&program) - evaluate_dag(&dag)).abs() < 1e-9);
}

#[test]
fn rpn_matches_dag_evaluation() {
    let mut t = BMLTransformer::new();
    let two = t.two();
    let two2 = t.two();
    let three = t.bml(two, two2);
    let eight = t.exp2(three);
    let log = t.log2(eight);
    let soa = t.into_soa();
    let program = linearize(&soa, log);
    let dag = Dag::new(soa, log);
    let rpn_val = evaluate(&program);
    let dag_val = evaluate_dag(&dag);
    assert!((rpn_val - dag_val).abs() < 1e-9, "RPN={rpn_val}, DAG={dag_val}");
    assert!((rpn_val - 3.0).abs() < 1e-9);
}

#[test]
fn loop_repeats_body() {
    let program = program_of(&[RpnOp::One, RpnOp::Loop { count: 3, body_len: 2 }, RpnOp::One, RpnOp::Bml]);
    let result = evaluate(&program);
    assert!((result - 16.0).abs() < 1e-9, "Loop result = {result}, expected 16");
}

#[test]
fn loop_count_zero() {
    let program = program_of(&[RpnOp::One, RpnOp::Loop { count: 0, body_len: 2 }, RpnOp::One, RpnOp::Bml]);
    let result = evaluate(&program);
    assert!((result - 1.0).abs() < 1e-9, "Loop(0) = {result}, expected 1");
}

#[test]
fn loop_count_one() {
    let program = program_of(&[RpnOp::One, RpnOp::Loop { count: 1, body_len: 2 }, RpnOp::One, RpnOp::Bml]);
    let result = evaluate(&program);
    assert!((result - 2.0).abs() < 1e-9, "Loop(1) = {result}, expected 2");
}

#[test]
fn loop_value_equals_unrolled_value() {
    let looped = program_of(&[RpnOp::One, RpnOp::Loop { count: 3, body_len: 2 }, RpnOp::One, RpnOp::Bml]);
    let mut unrolled = vec![RpnOp::One];
    for _ in 0..3 {
        unrolled.push(RpnOp::One);
        unrolled.push(RpnOp::Bml);
    }
    assert_eq!(evaluate(&looped).to_bits(), evaluate(&program_of(&unrolled)).to_bits());
}

#[test]
fn fadd_and_fmul() {
    let program = program_of(&[RpnOp::One, RpnOp::One, RpnOp::FAdd, RpnOp::One, RpnOp::FMul]);
    assert!((evaluate(&program) - 2.0).abs() < 1e-9);
}

#[test]
fn pick_and_drop() {
    let program = program_of(&[RpnOp::One, RpnOp::Zero, RpnOp::Pick { depth: 1 }, RpnOp::Drop, RpnOp::Drop]);
    assert!((evaluate(&program) - 1.0).abs() < 1e-9);
}

#[test]
fn swap_works() {
    let program = program_of(&[RpnOp::One, RpnOp::Zero, RpnOp::Swap, RpnOp::Drop]);
    assert!((evaluate(&program) - 0.0).abs() < 1e-9);
}

#[test]
fn nested_loop_values() {
    let inner_body = [RpnOp::One, RpnOp::One, RpnOp::Bml];
    let mut ops = vec![RpnOp::One, RpnOp::Loop { count: 2, body_len: 4 }, RpnOp::Loop { count: 3, body_len: 3 }];
    ops.extend_from_slice(&inner_body);
    let result = evaluate(&program_of(&ops));
    assert!((result - 2.0).abs() < 1e-9, "nested loops: {result}");
}

#[test]
#[should_panic(expected = "max 2 loop nesting levels")]
fn triple_nested_loop_panics() {
    let inner_body = [RpnOp::One, RpnOp::Bml];
    let mut middle_body = vec![RpnOp::Loop { count: 1, body_len: inner_body.len() as u32 }];
    middle_body.extend_from_slice(&inner_body);
    let mut outer_body = vec![RpnOp::Loop { count: 1, body_len: middle_body.len() as u32 }];
    outer_body.extend_from_slice(&middle_body);
    let mut ops = vec![RpnOp::One, RpnOp::Loop { count: 1, body_len: outer_body.len() as u32 }];
    ops.extend_from_slice(&outer_body);
    evaluate(&program_of(&ops));
}

#[test]
fn ops_within_nested_loops() {
    let inner_body = [RpnOp::One, RpnOp::Swap, RpnOp::Pick { depth: 2 }, RpnOp::FAdd, RpnOp::Drop];
    let mut outer_body = vec![RpnOp::Loop { count: 2, body_len: inner_body.len() as u32 }];
    outer_body.extend_from_slice(&inner_body);
    let mut ops = vec![RpnOp::One, RpnOp::One, RpnOp::Loop { count: 1, body_len: outer_body.len() as u32 }];
    ops.extend_from_slice(&outer_body);
    let _ = evaluate(&program_of(&ops));
}

/// A chain of about `n_ops` instructions built with constant folding.
fn folded_chain(n_ops: usize) -> RpnProgram {
    let mut reg = HashConsRegistry::new();
    let one = reg.one();
    let two = fold(&mut reg, one, one);
    let mut node = two;
    for _ in 0..n_ops / 3 {
        node = fold(&mut reg, node, two);
    }
    let soa = reg.into_soa();
    linearize(&soa, node)
}

#[test]
fn fragment_preserves_evaluation() {
    let program = folded_chain(1000);
    let graph = fragment_program(&program, DEFAULT_L1_THRESHOLD);
    let original_val = evaluate(&program);
    let fragmented_val = evaluate_graph(&graph);
    assert_eq!(original_val.to_bits(), fragmented_val.to_bits());
}

#[test]
fn execute_fragments_preserves_stack() {
    let (program, _) = exp2_program();
    let graph = fragment_program(&program, DEFAULT_L1_THRESHOLD);
    let fragments: Vec<&[RpnOp]> = graph.fragments.iter().map(|f| f.ops.as_slice()).collect();
    let result = run_hot(&fragments);
    assert!((result - 8.0).abs() < 1e-9);
}

#[test]
fn large_program_no_panic() {
    let program = folded_chain(3000);
    let _ = run_hot(&[program.ops.as_slice()]);
}

#[test]
fn evaluate_two() {
    let mut t = BMLTransformer::new();
    let root = t.two();
    let dag = Dag::new(t.into_soa(), root);
    assert!((evaluate_dag(&dag) - 2.0).abs() < 1e-12);
}

#[test]
fn evaluate_exp2() {
    let (_, dag) = exp2_program();
    assert!((evaluate_dag(&dag) - 8.0).abs() < 1e-9);
}

fn folded_graph(n_ops: usize) -> BmlGraph {
    fragment_program(&folded_chain(n_ops), DEFAULT_L1_THRESHOLD)
}

fn run_graph_hot(graph: &BmlGraph) -> f64 {
    let fragments: Vec<&[RpnOp]> = graph.fragments.iter().map(|f| f.ops.as_slice()).collect();
    run_hot(&fragments)
}

#[test]
fn execute_bmlgraph_small() {
    let graph = folded_graph(100);
    assert_eq!(run_graph_hot(&graph).to_bits(), evaluate_graph(&graph).to_bits());
}

#[test]
fn execute_bmlgraph_large() {
    let graph = folded_graph(10_000);
    assert_eq!(run_graph_hot(&graph).to_bits(), evaluate_graph(&graph).to_bits());
}

#[test]
fn execute_serialized_deserialized_bmlgraph() {
    let graph = folded_graph(1000);
    let bytes = graph.serialize();
    let restored = BmlGraph::deserialize(&bytes, DEFAULT_L1_THRESHOLD).unwrap();
    assert_eq!(run_graph_hot(&restored).to_bits(), evaluate_graph(&graph).to_bits());
}

#[test]
fn execute_multiple_graphs_same_runtime() {
    let graph1 = folded_graph(100);
    let graph2 = folded_graph(200);
    assert_eq!(run_graph_hot(&graph1).to_bits(), evaluate_graph(&graph1).to_bits());
    assert_eq!(run_graph_hot(&graph2).to_bits(), evaluate_graph(&graph2).to_bits());
}

#[test]
fn runtime_handles_empty_graph() {
    let graph = BmlGraph::new(DEFAULT_L1_THRESHOLD);
    assert!(run_graph_hot(&graph).is_nan(), "an empty graph gives NaN");
}
