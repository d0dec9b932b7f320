use bml::ast::NodeKind;
use bml::encoder::RealEncoder;

fn value_of(enc: &RealEncoder, id: u32) -> f64 {
    match enc.build_node(id).kind {
        NodeKind::Zero => 0.0,
        NodeKind::One => 1.0,
        NodeKind::Const(c) => f64::from_bits(enc.const_values()[c as usize]),
        k => panic!("not a leaf: {k:?}"),
    }
}

#[test]
fn encode_zero() {
    let mut enc = RealEncoder::new();
    let root = enc.encode_f64(0.0f64.to_bits());
    assert_eq!(root, 0);
    assert_eq!(enc.node_count(), 1);
    assert_eq!(enc.const_count(), 0);
    assert!(value_of(&enc, root) == 0.0);
    let neg = enc.encode_f64((-0.0f64).to_bits());
    assert_eq!(enc.build_node(neg).kind, NodeKind::Zero);
}

#[test]
fn encode_one() {
    let mut enc = RealEncoder::new();
    let root = enc.encode_f64(1.0f64.to_bits());
    assert_eq!(root, 0);
    assert_eq!(enc.node_count(), 1);
    assert_eq!(enc.const_count(), 0);
    assert!(value_of(&enc, root) == 1.0);
}

#[test]
fn encode_arbitrary() {
    for &v in &[0.0, 1.0, 2.0, -1.0, 0.5, 0.0078125, 3.14159, -2.71828] {
        let mut enc = RealEncoder::new();
        let root = enc.encode_f64(f64::to_bits(v));
        let val = value_of(&enc, root);
        assert!((val - v).abs() < 1e-12, "encode({v}) = {val}");
    }
}

#[test]
fn deduplication() {
    let mut enc = RealEncoder::new();
    let a = enc.encode_f64(0.0078125f64.to_bits());
    let b = enc.encode_f64(0.0078125f64.to_bits());
    let c = enc.encode_f64(0.0078125f64.to_bits());
    assert_eq!(enc.const_count(), 1);
    assert_eq!(enc.node_count(), 3);
    assert_eq!(enc.build_node(a).kind, enc.build_node(c).kind);
    assert_eq!((a, b, c), (0, 1, 2));
}

#[test]
fn q4_0_weights() {
    let weights: [f64; 16] = [
        -8.0, -7.0, -6.0, -5.0, -4.0, -3.0, -2.0, -1.0, 0.0, 1.0, 2.0, 3.0, 4.0, 5.0, 6.0, 7.0,
    ];
    let mut enc = RealEncoder::new();
    for &w in &weights {
        let _ = enc.encode_f64(w.to_bits());
    }
    assert_eq!(enc.const_count(), 14);
    assert_eq!(enc.node_count(), 16);
}

#[test]
fn bml_identity() {
    let mut enc = RealEncoder::default();
    let one = enc.encode_f64(1.0f64.to_bits());
    let b = enc.bml(one, one);
    let nodes = enc.build_nodes();
    assert_eq!(nodes.len(), 2);
    assert_eq!(nodes[b as usize].kind, NodeKind::Bml);
    assert_eq!((nodes[b as usize].left, nodes[b as usize].right), (Some(one), Some(one)));
    assert_eq!(nodes[b as usize].id, b);
}
