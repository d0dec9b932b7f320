use bml::shm::{decode_results, encode_result, ShmChannel};

#[test]
fn is_shm_available() {
    let channel = ShmChannel::with_base_dir("/dev/shm".to_string(), 1);
    println!("SHM available: {}", channel.is_shm_available());
    assert!(channel.is_shm_available());
    let fallback = ShmChannel::with_base_dir("/tmp".to_string(), 1);
    assert!(!fallback.is_shm_available());
}

#[test]
fn file_names_of_a_session() {
    let id = ShmChannel::session_id_for(42, 3);
    assert_eq!(id, 42_000_003);
    let mut c = ShmChannel::with_base_dir("/dev/shm".to_string(), id);
    assert_eq!(c.next_fragment_file_name(), "bml_shm_42000003_0.bmlfrag");
    assert_eq!(c.next_fragment_file_name(), "bml_shm_42000003_1.bmlfrag");
    assert_eq!(c.result_file_name(7), "bml_shm_result_42000003_7.dat");
    assert!(c.is_session_file("bml_shm_42000003_0.bmlfrag"));
    assert!(!c.is_session_file("bml_shm_42000004_0.bmlfrag"));
    assert!(!c.is_session_file("bml_shm_result_42000003_7.dat"));
    assert_eq!(c.base_dir(), "/dev/shm");
    assert_eq!(c.session_id(), 42_000_003);
}

#[test]
fn write_read_results_append_only() {
    let mut file: Vec<u8> = Vec::new();
    for r in [1.5f64, 2.5, 3.5] {
        file.extend(encode_result(r.to_bits()));
    }
    let results: Vec<f64> = decode_results(&file).into_iter().map(f64::from_bits).collect();
    assert_eq!(results.len(), 3);
    assert!((results[0] - 1.5).abs() < 1e-12);
    assert!((results[1] - 2.5).abs() < 1e-12);
    assert!((results[2] - 3.5).abs() < 1e-12);
}

#[test]
fn result_bytes_are_little_endian() {
    assert_eq!(encode_result(0x0102030405060708), vec![8, 7, 6, 5, 4, 3, 2, 1]);
    assert_eq!(decode_results(&[1, 0, 0, 0, 0, 0, 0, 0, 9, 9]), vec![1]);
}
