use bml::ast::{NodeId, NodeKind};
use bml::hash_cons::HashConsRegistry;

/// `2^x - log2(y)`, the BML operator on `f64`.
fn bml_op(x: f64, y: f64) -> f64 {
    if y < 0.0 || y.is_nan() {
        return f64::NAN;
    }
    let log2_y = if y == 0.0 { f64::NEG_INFINITY } else { y.log2() };
    let exp_x = if x.is_nan() { f64::NAN } else { x.exp2() };
    exp_x - log2_y
}

/// `BML(left, right)` with constant folding: two constant operands whose
/// result is finite give a constant node.
fn bml(reg: &mut HashConsRegistry, left: NodeId, right: NodeId) -> NodeId {
    if let Some((a, b)) = reg.const_operands(left, right) {
        let v = bml_op(f64::from_bits(a), f64::from_bits(b));
        if v.is_finite() {
            return reg.const_value(v.to_bits());
        }
    }
    reg.bml_node(left, right)
}

fn pool_value(reg: &HashConsRegistry, id: NodeId) -> f64 {
    match reg.soa().get(id).kind {
        NodeKind::Const(c) => f64::from_bits(reg.const_pool()[c as usize]),
        other => panic!("not a constant: {other:?}"),
    }
}

#[test]
fn one_is_deduplicated() {
    let mut reg = HashConsRegistry::new();
    let a = reg.one();
    let b = reg.one();
    let c = reg.one();
    assert_eq!(a, b);
    assert_eq!(b, c);
    assert_eq!(reg.unique_count(), 1);
}

#[test]
fn identical_bml_subtrees_are_deduplicated() {
    let mut reg = HashConsRegistry::new();
    let one = reg.one();
    let a = bml(&mut reg, one, one);
    let b = bml(&mut reg, one, one);
    assert_eq!(a, b);
    assert_eq!(reg.unique_count(), 2);
}

#[test]
fn distinct_subtrees_are_not_deduplicated() {
    let mut reg = HashConsRegistry::new();
    let one = reg.one();
    let two = bml(&mut reg, one, one);
    let three = bml(&mut reg, two, two);
    let four = bml(&mut reg, two, one);
    assert_ne!(two, three);
    assert_ne!(two, four);
    assert_ne!(three, four);
    assert_eq!(reg.unique_count(), 4);
}

#[test]
fn order_matters_for_deduplication() {
    let mut reg = HashConsRegistry::new();
    let one = reg.one();
    let two = bml(&mut reg, one, one);
    let a = bml(&mut reg, two, one);
    let b = bml(&mut reg, one, two);
    assert_ne!(a, b);
}

#[test]
fn deeply_nested_deduplication() {
    let mut reg = HashConsRegistry::new();
    let one = reg.one();
    let two = bml(&mut reg, one, one);
    let x1 = bml(&mut reg, two, two);
    let x2 = bml(&mut reg, two, two);
    let x3 = bml(&mut reg, two, two);
    assert_eq!(x1, x2);
    assert_eq!(x2, x3);
    let y1 = bml(&mut reg, x1, x1);
    let y2 = bml(&mut reg, x1, x1);
    assert_eq!(y1, y2);
    assert_eq!(reg.unique_count(), 4);
}

#[test]
fn constant_folding_bml_one_one() {
    let mut reg = HashConsRegistry::new();
    let one = reg.one();
    let result = bml(&mut reg, one, one);
    let node = reg.soa().get(result);
    assert!(node.is_const(), "bml(1,1) must fold to Const, got {:?}", node.kind);
    assert!((pool_value(&reg, result) - 2.0).abs() < 1e-12);
}

#[test]
fn constant_folding_chained() {
    let mut reg = HashConsRegistry::new();
    let one = reg.one();
    let two = bml(&mut reg, one, one);
    let three = bml(&mut reg, two, two);
    assert!(reg.soa().get(three).is_const());
    assert!((pool_value(&reg, three) - 3.0).abs() < 1e-12);
}

#[test]
fn constant_folding_with_var_not_folded() {
    let mut reg = HashConsRegistry::new();
    let var = reg.var(0);
    let one = reg.one();
    let two = bml(&mut reg, one, one);
    let result = bml(&mut reg, var, two);
    assert!(reg.soa().get(result).is_bml());
}

#[test]
fn constant_folding_deduplicates_constants() {
    let mut reg = HashConsRegistry::new();
    let one = reg.one();
    let a = bml(&mut reg, one, one);
    let b = bml(&mut reg, one, one);
    assert_eq!(a, b);
}

#[test]
fn constant_folding_reduces_node_count() {
    let mut reg = HashConsRegistry::new();
    let one = reg.one();
    let two = bml(&mut reg, one, one);
    let _three = bml(&mut reg, two, two);
    let mut bml_count = 0;
    for i in 0..reg.unique_count() {
        if reg.soa().get(i as NodeId).is_bml() {
            bml_count += 1;
        }
    }
    assert_eq!(bml_count, 0);
}

#[test]
fn const_value_creates_and_reuses() {
    let mut reg = HashConsRegistry::new();
    let a = reg.const_value(1.5f64.to_bits());
    let b = reg.const_value(1.5f64.to_bits());
    assert_eq!(a, b);
    let c = reg.const_value(2.5f64.to_bits());
    assert_ne!(a, c);
}

#[test]
fn const_pool_accessible() {
    let mut reg = HashConsRegistry::new();
    reg.const_value(1.5f64.to_bits());
    reg.const_value(2.5f64.to_bits());
    let pool = reg.const_pool();
    assert_eq!(pool.len(), 2);
    assert!((f64::from_bits(pool[0]) - 1.5).abs() < 1e-12);
    assert!((f64::from_bits(pool[1]) - 2.5).abs() < 1e-12);
}

#[test]
fn bml_node_without_folding_is_shared() {
    let mut reg = HashConsRegistry::new();
    let one = reg.one();
    let a = reg.bml_node(one, one);
    let b = reg.bml_node(one, one);
    let c = reg.bml_node(a, one);
    assert_eq!(a, b);
    assert_ne!(a, c);
    assert_eq!(reg.len(), 3);
    assert!(reg.soa().get(a).is_bml());
}

#[test]
fn zero_and_operands() {
    let mut reg = HashConsRegistry::new();
    let z1 = reg.zero();
    let z2 = reg.zero();
    assert_eq!(z1, z2);
    let one = reg.one();
    let v = reg.var(3);
    assert_eq!(reg.const_operands(one, z1), Some((1.0f64.to_bits(), 0)));
    assert_eq!(reg.const_operands(one, v), None);
    let (soa, pool) = reg.into_soa_and_pool();
    assert_eq!(soa.len(), 3);
    assert!(pool.is_empty());
}
