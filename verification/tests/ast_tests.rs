use bml::ast::{Node, NodeKind};
use bml::strict_ast;

fn build_exp_x() -> Vec<strict_ast::Node> {
    vec![strict_ast::Node::bml(0, 1, 2), strict_ast::Node::one(1), strict_ast::Node::one(2)]
}

#[test]
fn ast_node_constructors() {
    let one = strict_ast::Node::one(0);
    assert!(one.is_one());
    assert!(!one.is_bml());

    let bml_node = strict_ast::Node::bml(1, 0, 0);
    assert!(bml_node.is_bml());
    assert!(!bml_node.is_one());
    assert_eq!(bml_node.left, Some(0));
    assert_eq!(bml_node.right, Some(0));
}

#[test]
fn grammar_only_one_and_bml() {
    let variants = [strict_ast::NodeKind::One, strict_ast::NodeKind::Bml];
    assert_eq!(variants.len(), 2);
}

#[test]
fn build_exp_x_structure() {
    let nodes = build_exp_x();
    assert!(nodes[0].is_bml());
    assert!(nodes[1].is_one());
    assert!(nodes[2].is_one());
}

#[test]
fn node_constructors() {
    let one = Node::one(0);
    assert!(one.is_one());
    assert!(!one.is_var());
    assert!(!one.is_const());
    assert!(!one.is_bml());

    let var = Node::var(1, 0);
    assert!(!var.is_one());
    assert!(var.is_var());
    assert!(!var.is_const());
    assert!(!var.is_bml());

    let const_ = Node::const_(2, 0);
    assert!(!const_.is_one());
    assert!(!const_.is_var());
    assert!(const_.is_const());
    assert!(!const_.is_bml());

    let bml_node = Node::bml(3, 0, 0);
    assert!(!bml_node.is_one());
    assert!(!bml_node.is_var());
    assert!(!bml_node.is_const());
    assert!(bml_node.is_bml());
    assert_eq!(bml_node.left, Some(0));
    assert_eq!(bml_node.right, Some(0));
}

#[test]
fn grammar_has_four_variants() {
    let variants = [NodeKind::One, NodeKind::Var(0), NodeKind::Const(0), NodeKind::Bml];
    assert_eq!(variants.len(), 4);
}

#[test]
fn zero_node_is_a_leaf() {
    let z = Node::zero(5);
    assert_eq!(z.id, 5);
    assert_eq!(z.kind, NodeKind::Zero);
    assert_eq!(z.left, None);
    assert_eq!(z.right, None);
    assert!(!z.is_one() && !z.is_var() && !z.is_const() && !z.is_bml());
}
