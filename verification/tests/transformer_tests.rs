use bml::ast::{NodeId, NodeKind};
use bml::dag::Dag;
use bml::rpn::{linearize, RpnOp};
use bml::soa::NodeSoA;
use bml::transformer::BMLTransformer;

fn bml_op(x: f64, y: f64) -> f64 {
    if y < 0.0 || y.is_nan() {
        return f64::NAN;
    }
    let log2_y = if y == 0.0 { f64::NEG_INFINITY } else { y.log2() };
    x.exp2() - log2_y
}

fn eval(soa: &NodeSoA, id: NodeId) -> f64 {
    let i = id as usize;
    match soa.kinds[i] {
        NodeKind::One => 1.0,
        NodeKind::Zero => 0.0,
        NodeKind::Bml => bml_op(eval(soa, soa.lefts[i]), eval(soa, soa.rights[i])),
        _ => f64::NAN,
    }
}

fn number(t: &mut BMLTransformer, n: u32) -> NodeId {
    // n as a BML term: 2 = bml(1,1), 3 = bml(2,2), 4 = exp2(2), 8 = exp2(3)...
    match n {
        1 => t.one(),
        2 => t.two(),
        3 => {
            let a = t.two();
            let b = t.two();
            t.bml(a, b)
        }
        4 => {
            let a = t.two();
            t.exp2(a)
        }
        _ => panic!("unsupported"),
    }
}

#[test]
fn transformer_preserves_grammar() {
    let mut t = BMLTransformer::new();
    let three = number(&mut t, 3);
    let four = number(&mut t, 4);
    let _ = t.mul(three, four);
    let _ = t.div(four, three);
    let _ = t.pow(four, three);
    let soa = t.into_soa();
    for i in 0..soa.len() {
        let node = soa.get(i as NodeId);
        assert!(node.is_one() || node.is_bml(), "node {i} is neither One nor Bml");
    }
}

#[test]
fn operations_append_expected_counts() {
    let mut t = BMLTransformer::new();
    let x = t.one();
    let before = t.soa().len();
    t.neg(x);
    assert_eq!(t.soa().len() - before, 16);
    let before = t.soa().len();
    t.mul(x, x);
    assert_eq!(t.soa().len() - before, 39);
    let before = t.soa().len();
    t.pow(x, x);
    assert_eq!(t.soa().len() - before, 47);
}

#[test]
fn transformer_values() {
    let mut t = BMLTransformer::new();
    let three = number(&mut t, 3);
    let four = number(&mut t, 4);
    let two = number(&mut t, 2);
    let e = t.exp2(three);
    let l = t.log2(e);
    let sub = t.sub(e, three);
    let neg = t.neg(three);
    let add = t.add(four, three);
    let rec = t.recip(four);
    let mul = t.mul(three, four);
    let pw = t.pow(two, three);
    let soa = t.into_soa();
    assert!((eval(&soa, e) - 8.0).abs() < 1e-9);
    assert!((eval(&soa, l) - 3.0).abs() < 1e-9);
    assert!((eval(&soa, sub) - 5.0).abs() < 1e-9);
    assert!((eval(&soa, neg) + 3.0).abs() < 1e-9);
    assert!((eval(&soa, add) - 7.0).abs() < 1e-9);
    assert!((eval(&soa, rec) - 0.25).abs() < 1e-9);
    assert!((eval(&soa, mul) - 12.0).abs() < 1e-9);
    assert!((eval(&soa, pw) - 8.0).abs() < 1e-9);
}

#[test]
fn dag_len() {
    let mut t = BMLTransformer::new();
    let root = t.two();
    let dag = Dag::new(t.into_soa(), root);
    assert_eq!(dag.len(), 3);
    assert!(!dag.is_empty());
    assert!(dag.get(root).is_bml());
    assert_eq!(dag.get(root).left, Some(0));
}

#[test]
fn linearized_program_leaves_one_value() {
    let mut t = BMLTransformer::new();
    let three = number(&mut t, 3);
    let root = t.exp2(three);
    let soa = t.into_soa();
    let program = linearize(&soa, root);
    let mut depth: i64 = 0;
    for op in &program.ops {
        match op {
            RpnOp::Bml => {
                assert!(depth >= 2);
                depth -= 1;
            }
            RpnOp::Dup => {
                assert!(depth >= 1);
                depth += 1;
            }
            RpnOp::Pick { depth: d } => {
                assert!(depth > *d as i64);
                depth += 1;
            }
            _ => depth += 1,
        }
    }
    assert_eq!(depth, 1);
}

#[test]
fn two_equals_2() {
    let mut t = BMLTransformer::new();
    let root = t.two();
    let soa = t.into_soa();
    assert!((eval(&soa, root) - 2.0).abs() < 1e-12);
}

#[test]
fn exp2_of_3_is_8() {
    let mut t = BMLTransformer::new();
    let two = t.two();
    let two2 = t.two();
    let three = t.bml(two, two2);
    let exp = t.exp2(three);
    let soa = t.into_soa();
    assert!((eval(&soa, exp) - 8.0).abs() < 1e-9);
}

#[test]
fn log2_of_8_is_3() {
    let mut t = BMLTransformer::new();
    let two = t.two();
    let two2 = t.two();
    let three = t.bml(two, two2);
    let eight = t.exp2(three);
    let log = t.log2(eight);
    let soa = t.into_soa();
    assert!((eval(&soa, log) - 3.0).abs() < 1e-9);
}

#[test]
fn log2_of_power_of_2() {
    for k in 1..=4u32 {
        let mut t = BMLTransformer::new();
        let k_node = number(&mut t, k);
        let pow = t.exp2(k_node);
        let log = t.log2(pow);
        let soa = t.into_soa();
        let result = eval(&soa, log);
        assert!((result - k as f64).abs() < 1e-9, "log2(2^{k}) = {result}, expected {k}");
    }
}

#[test]
fn one_evaluates_to_one() {
    let mut t = BMLTransformer::new();
    let one = t.one();
    let soa = t.into_soa();
    assert_eq!(eval(&soa, one), 1.0);
}

#[test]
fn sub_works() {
    let mut t = BMLTransformer::new();
    let three = number(&mut t, 3);
    let three2 = number(&mut t, 3);
    let eight = t.exp2(three);
    let result = t.sub(eight, three2);
    let val = eval(&t.into_soa(), result);
    assert!((val - 5.0).abs() < 1e-9, "sub(8,3) = {val}, expected 5");
}

#[test]
fn neg_works() {
    let mut t = BMLTransformer::new();
    let three = number(&mut t, 3);
    let result = t.neg(three);
    let val = eval(&t.into_soa(), result);
    assert!((val - (-3.0)).abs() < 1e-9, "neg(3) = {val}, expected -3");
}

#[test]
fn add_works() {
    let mut t = BMLTransformer::new();
    let three = number(&mut t, 3);
    let three2 = number(&mut t, 3);
    let three3 = number(&mut t, 3);
    let eight = t.exp2(three);
    let five = t.sub(eight, three2);
    let result = t.add(five, three3);
    let val = eval(&t.into_soa(), result);
    assert!((val - 8.0).abs() < 1e-9, "add(5,3) = {val}, expected 8");
}

#[test]
fn recip_works() {
    let mut t = BMLTransformer::new();
    let two = t.two();
    let four = t.exp2(two);
    let result = t.recip(four);
    let val = eval(&t.into_soa(), result);
    assert!((val - 0.25).abs() < 1e-9, "recip(4) = {val}, expected 0.25");
}

#[test]
fn mul_works() {
    let mut t = BMLTransformer::new();
    let three = number(&mut t, 3);
    let two3 = t.two();
    let four = t.exp2(two3);
    let result = t.mul(three, four);
    let val = eval(&t.into_soa(), result);
    assert!((val - 12.0).abs() < 1e-9, "mul(3,4) = {val}, expected 12");
}

#[test]
fn div_works() {
    let mut t = BMLTransformer::new();
    let three = number(&mut t, 3);
    let two3 = t.two();
    let four = t.exp2(two3);
    let twelve = t.mul(three, four);
    let result = t.div(twelve, four);
    let val = eval(&t.into_soa(), result);
    assert!((val - 3.0).abs() < 1e-9, "div(12,4) = {val}, expected 3");
}

#[test]
fn pow_works() {
    let mut t = BMLTransformer::new();
    let two = t.two();
    let three = number(&mut t, 3);
    let result = t.pow(two, three);
    let val = eval(&t.into_soa(), result);
    assert!((val - 8.0).abs() < 1e-9, "pow(2,3) = {val}, expected 8");
}
