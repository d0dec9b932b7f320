use bml::hardware::{cache_level_matches, default_cache_kb, parse_cache_size_kb, HardwareSpec};
use bml::rpn::RpnOp;
use bml::text::trimmed_chars;

#[test]
fn min_fragments_calculation() {
    let hw = HardwareSpec::new(4, 32 * 1024, 256 * 1024, 16 * 1024 * 1024);
    let op_size = std::mem::size_of::<RpnOp>();
    let ops_per_core = (32 * 1024) / op_size;
    let total_capacity = ops_per_core * 4;
    assert_eq!(hw.min_fragments(total_capacity), 1);
    assert_eq!(hw.min_fragments(total_capacity * 2), 2);
    assert_eq!(hw.min_fragments(0), 1);
}

#[test]
fn fragment_threshold() {
    let hw = HardwareSpec::new(4, 32 * 1024, 256 * 1024, 16 * 1024 * 1024);
    assert_eq!(hw.fragment_threshold(), 32 * 1024);
}

#[test]
fn min_fragments_rounds_up() {
    let s = std::mem::size_of::<RpnOp>();
    let hw = HardwareSpec::new(2, 10 * s, 0, 0);
    assert_eq!(hw.min_fragments(20), 1);
    assert_eq!(hw.min_fragments(21), 2);
    assert_eq!(hw.min_fragments(41), 3);
    let none = HardwareSpec::new(0, 10 * s, 0, 0);
    assert_eq!(none.min_fragments(1000), 1);
}

#[test]
fn cache_size_files() {
    assert_eq!(parse_cache_size_kb("32K\n"), Some(32));
    assert_eq!(parse_cache_size_kb("  8192K "), Some(8192));
    assert_eq!(parse_cache_size_kb("+48K"), Some(48));
    assert_eq!(parse_cache_size_kb("32M"), None);
    assert_eq!(parse_cache_size_kb("K"), None);
    assert_eq!(parse_cache_size_kb("3x2K"), None);
    assert_eq!(parse_cache_size_kb("99999999999999999999999K"), None);
    assert!(cache_level_matches("2\n", 2));
    assert!(cache_level_matches(" 10 ", 10));
    assert!(!cache_level_matches("3", 2));
    assert!(!cache_level_matches("02", 2));
    assert_eq!(default_cache_kb(0), 32);
    assert_eq!(default_cache_kb(2), 256);
    assert_eq!(default_cache_kb(3), 16 * 1024);
    assert_eq!(default_cache_kb(7), 32);
    let h = HardwareSpec::from_cache_kb(8, 32, 256, 1024);
    assert_eq!((h.cores, h.l1i, h.l2, h.l3), (8, 32 * 1024, 256 * 1024, 1024 * 1024));
}

#[test]
fn trimming() {
    assert_eq!(trimmed_chars(" \t ab c \n"), vec!['a', 'b', ' ', 'c']);
    assert_eq!(trimmed_chars("   "), Vec::<char>::new());
    assert_eq!(trimmed_chars("\u{3000}x\u{2003}"), vec!['x']);
}

#[test]
fn min_fragments_of_every_total() {
    let s = std::mem::size_of::<RpnOp>();
    let hw = HardwareSpec::new(2, 10 * s, 0, 0);
    // Capacity 20: ceil(usize::MAX / 20) without overflow.
    assert_eq!(hw.min_fragments(usize::MAX), usize::MAX / 20 + 1);
    assert_eq!(hw.min_fragments(usize::MAX - 15), usize::MAX / 20);
    let one = HardwareSpec::new(1, s, 0, 0);
    assert_eq!(one.min_fragments(usize::MAX), usize::MAX);
}
