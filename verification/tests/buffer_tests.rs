use bml::buffer::{ResultBuffer, ResultRing};

fn bits(x: f64) -> u64 {
    x.to_bits()
}

fn val(b: u64) -> f64 {
    f64::from_bits(b)
}

#[test]
fn write_read_basic() {
    let mut buf = ResultBuffer::new(4, 2048);
    buf.write(0, 0, bits(1.5));
    buf.write(0, 1, bits(2.5));
    buf.write(1, 0, bits(3.5));

    assert_eq!(val(buf.read(0, 0)), 1.5);
    assert_eq!(val(buf.read(0, 1)), 2.5);
    assert_eq!(val(buf.read(1, 0)), 3.5);
    assert_eq!(val(buf.read(1, 1)), 0.0);
}

#[test]
fn write_read_indexed() {
    let mut buf = ResultBuffer::new(4, 2048);
    let base = 2048;
    buf.write_indexed(base, 0, bits(10.0));
    buf.write_indexed(base, 1, bits(20.0));

    assert_eq!(val(buf.read_indexed(base, 0)), 10.0);
    assert_eq!(val(buf.read_indexed(base, 1)), 20.0);
    assert_eq!(val(buf.read(1, 0)), 10.0);
    assert_eq!(val(buf.read(1, 1)), 20.0);
}

#[test]
fn slot_access() {
    let mut buf = ResultBuffer::new(2, 4);
    buf.write(0, 0, bits(1.0));
    buf.write(0, 1, bits(2.0));
    buf.write(0, 2, bits(3.0));
    buf.write(0, 3, bits(4.0));

    let s0: Vec<f64> = buf.slot(0).iter().map(|&b| val(b)).collect();
    let s1: Vec<f64> = buf.slot(1).iter().map(|&b| val(b)).collect();
    assert_eq!(s0, vec![1.0, 2.0, 3.0, 4.0]);
    assert_eq!(s1, vec![0.0, 0.0, 0.0, 0.0]);
}

#[test]
fn out_of_bounds_returns_nan() {
    let buf = ResultBuffer::new(2, 4);
    assert!(val(buf.read(99, 0)).is_nan());
    assert!(val(buf.read_indexed(99999, 0)).is_nan());
}

#[test]
fn zero_allocs() {
    let mut buf = ResultBuffer::new(4, 2048);
    let len_before = buf.len();
    for i in 0..2048u32 {
        buf.write(0, i, bits(i as f64));
    }
    assert_eq!(buf.len(), len_before);
}

#[test]
fn pass_results_between_slots() {
    let mut buf = ResultBuffer::new(4, 8);
    for i in 0..8u32 {
        buf.write(0, i, bits((i as f64) * 2.0));
    }
    for i in 0..8u32 {
        let v = val(buf.read(0, i));
        buf.write(1, i, bits(v + 1.0));
    }
    for i in 0..8u32 {
        assert_eq!(val(buf.read(1, i)), (i as f64) * 2.0 + 1.0);
    }
}

#[test]
fn write_outside_is_dropped() {
    let mut buf = ResultBuffer::new(2, 4);
    buf.write(2, 0, bits(7.0));
    buf.write_indexed(8, 0, bits(7.0));
    assert!(buf.data().iter().all(|&b| b == 0));
    assert_eq!(buf.n_slots(), 2);
    assert_eq!(buf.slot_size(), 4);
}

#[test]
fn read_gives_last_write_and_leaves_others() {
    let mut buf = ResultBuffer::new(2, 4);
    buf.write(1, 2, bits(5.0));
    buf.write(1, 2, bits(6.0));
    assert_eq!(val(buf.read(1, 2)), 6.0);
    assert_eq!(val(buf.read(1, 1)), 0.0);
    assert_eq!(val(buf.read_indexed(4, 2)), 6.0);
}

#[test]
fn results_are_append_only() {

    let mut ring = ResultRing::new(4);
    assert!(ring.results().iter().all(|&b| f64::from_bits(b).is_nan()));
    for _ in 0..6 {
        ring.write(bits(8.0));
    }
    for &r in ring.results() {
        assert!((val(r) - 8.0).abs() < 1e-9);
    }
    assert_eq!(ring.result_count(), 4);
}

#[test]
fn ring_rotates_over_oldest() {

    let mut ring = ResultRing::new(3);
    for v in 1..=4u64 {
        ring.write(v);
    }
    assert_eq!(ring.results(), &[4, 2, 3]);
    let mut empty = ResultRing::new(0);
    empty.write(1);
    assert!(empty.results().is_empty());
}
