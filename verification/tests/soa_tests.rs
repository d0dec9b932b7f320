use bml::soa::NodeSoA;

#[test]
fn push_one_and_bml() {
    let mut soa = NodeSoA::new();
    let one_id = soa.push_one();
    let bml_id = soa.push_bml(one_id, one_id);

    assert_eq!(soa.len(), 2);
    assert!(soa.get(one_id).is_one());
    assert!(soa.get(bml_id).is_bml());
    assert_eq!(soa.get(bml_id).left, Some(one_id));
    assert_eq!(soa.get(bml_id).right, Some(one_id));
}

#[test]
fn empty_soa() {
    let soa = NodeSoA::new();
    assert!(soa.is_empty());
    assert_eq!(soa.len(), 0);
}

#[test]
fn reserve_grows_capacity() {
    let mut soa = NodeSoA::new();
    soa.reserve(100);
    assert!(soa.is_empty());
    let id = soa.push_one();
    assert_eq!(id, 0);
}
