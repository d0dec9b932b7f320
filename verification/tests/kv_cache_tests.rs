use bml::kv_cache::HashConsedKV;

fn bits(v: &[f32]) -> Vec<u32> {
    v.iter().map(|x| x.to_bits()).collect()
}

fn vals(v: &[u32]) -> Vec<f32> {
    v.iter().map(|&b| f32::from_bits(b)).collect()
}

#[test]
fn store_load_roundtrip() {
    let mut kv = HashConsedKV::new(1, 4, 64, 128);
    let k = vec![0.5f32; 64];
    let v = vec![-0.3f32; 64];

    kv.store_k(0, 0, 0, &bits(&k));
    kv.store_v(0, 0, 0, &bits(&v));

    let loaded_k = vals(&kv.load_k(0, 0, 0));
    let loaded_v = vals(&kv.load_v(0, 0, 0));

    for i in 0..64 {
        assert!((loaded_k[i] - k[i]).abs() < 1e-6, "K mismatch at {i}");
        assert!((loaded_v[i] - v[i]).abs() < 1e-6, "V mismatch at {i}");
    }
}

#[test]
fn ring_buffer_wrapping() {
    let mut kv = HashConsedKV::new(1, 1, 4, 8);
    let k0 = vec![0.1f32, 0.2, 0.3, 0.4];
    let k8 = vec![0.9f32, 0.8, 0.7, 0.6];

    kv.store_k(0, 0, 0, &bits(&k0));
    kv.store_k(0, 8, 0, &bits(&k8));

    let loaded = vals(&kv.load_k(0, 0, 0));
    assert!((loaded[0] - 0.9).abs() < 1e-6, "Ring buffer wrap failed");
    assert!((loaded[3] - 0.6).abs() < 1e-6, "Ring buffer wrap failed");
}

#[test]
fn multi_layer_multi_head() {
    let mut kv = HashConsedKV::new(2, 4, 64, 128);
    let k = vec![0.1f32; 64];
    let v = vec![0.2f32; 64];

    kv.store_k(1, 5, 2, &bits(&k));
    kv.store_v(1, 5, 2, &bits(&v));

    let loaded_k = vals(&kv.load_k(1, 5, 2));
    let loaded_v = vals(&kv.load_v(1, 5, 2));

    assert_eq!(loaded_k.len(), 64);
    assert_eq!(loaded_v.len(), 64);
    assert!((loaded_k[0] - 0.1).abs() < 1e-6);
    assert!((loaded_v[0] - 0.2).abs() < 1e-6);

    let empty = vals(&kv.load_k(1, 0, 0));
    assert!((empty[0] - 0.0).abs() < 1e-6, "other positions stay at 0");
}

#[test]
fn stats_no_dedup() {
    let mut kv = HashConsedKV::new(2, 4, 64, 128);
    let k0 = vec![0.1f32; 64];
    let k1 = vec![0.1f32; 64];

    kv.store_k(0, 0, 0, &bits(&k0));
    kv.store_k(0, 1, 0, &bits(&k1));

    let (unique, total) = kv.k_stats();
    assert_eq!(total, 2);
    assert_eq!(unique, total);
    let ratio = unique as f64 / total as f64;
    assert!((ratio - 1.0).abs() < 1e-6);
    assert_eq!(kv.v_stats(), (0, 0));
}

#[test]
fn byte_size_counts_both_buffers() {
    let kv = HashConsedKV::new(2, 4, 64, 128);
    assert_eq!(kv.byte_size(), 2 * 4 * 64 * 128 * 4 * 2);
    let empty = HashConsedKV::new(0, 4, 64, 128);
    assert_eq!(empty.byte_size(), 0);
}

#[test]
fn positions_advance() {
    let mut kv = HashConsedKV::new(1, 1, 4, 8);
    assert_eq!(kv.current_pos(), 0);
    kv.advance();
    kv.advance_by(5);
    assert_eq!(kv.current_pos(), 6);
}

#[test]
fn store_takes_first_head_dim_values() {
    let mut kv = HashConsedKV::new(1, 2, 2, 2);
    kv.store_k(0, 1, 1, &[7, 8, 9]);
    assert_eq!(kv.load_k(0, 1, 1), vec![7, 8]);
    assert_eq!(kv.load_k(0, 1, 0), vec![0, 0]);
    assert_eq!(kv.load_k(0, 3, 1), vec![7, 8]);
}

#[test]
fn store_keeps_other_entries() {
    let mut kv = HashConsedKV::new(2, 2, 4, 3);
    let a = bits(&[1.0, 2.0, 3.0, 4.0]);
    let b = bits(&[5.0, 6.0, 7.0, 8.0]);
    kv.store_k(0, 1, 1, &a);
    kv.store_k(1, 1, 1, &b);
    kv.store_k(0, 2, 1, &b);
    kv.store_k(0, 1, 0, &b);
    assert!(kv.entry_in_range(0, 4, 1));
    // Position 4 shares the ring slot of position 1 (4 % 3 == 1).
    assert_eq!(kv.load_k(0, 4, 1), a);
    assert_eq!(kv.load_k(1, 1, 1), b);
    assert_eq!(kv.load_k(1, 0, 0), vec![0; 4]);
    assert!(!kv.entry_in_range(2, 0, 0));
}
