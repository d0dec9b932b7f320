use bml::args::{parse_bench_args, parse_server_args, parse_worker_args, BenchArgs};

fn argv(parts: &[&str]) -> Vec<String> {
    parts.iter().map(|s| s.to_string()).collect()
}

#[test]
fn bench_defaults_to_markdown() {
    let a = parse_bench_args(&argv(&["bml-bench"]));
    assert_eq!(
        a,
        BenchArgs { json: false, md: true, pp: 512, tg: 128, reps: 5, model: 0, multicore: false, help: false }
    );
}

#[test]
fn bench_reads_flags_and_values() {
    let a = parse_bench_args(&argv(&[
        "bml-bench", "--json", "--pp", "64", "--tg", "+32", "--reps", "3", "--model", "2", "--multicore",
    ]));
    assert!(a.json);
    assert!(!a.md);
    assert_eq!((a.pp, a.tg, a.reps, a.model), (64, 32, 3, 2));
    assert!(a.multicore);
    assert!(!a.help);
}

#[test]
fn bench_bad_values_keep_defaults() {
    let a = parse_bench_args(&argv(&["b", "--pp", "x", "--tg", "4294967296", "--reps", "-1", "--md"]));
    assert_eq!((a.pp, a.tg, a.reps), (512, 128, 5));
    assert!(a.md);
    let b = parse_bench_args(&argv(&["b", "--pp"]));
    assert_eq!(b.pp, 512);
    assert!(b.md);
}

#[test]
fn bench_help_stops_reading() {
    let a = parse_bench_args(&argv(&["b", "--pp", "7", "-h", "--pp", "9"]));
    assert!(a.help);
    assert_eq!(a.pp, 7);
    assert!(!a.md);
}

#[test]
fn worker_args() {
    let a = parse_worker_args(&argv(&["w"]));
    assert_eq!((a.port, a.fragment_path.clone(), a.help), (9999, None, false));
    let b = parse_worker_args(&argv(&["w", "-p", "7000", "--fragment", "/tmp/f.bmlgraph"]));
    assert_eq!(b.port, 7000);
    assert_eq!(b.fragment_path.as_deref(), Some("/tmp/f.bmlgraph"));
    let c = parse_worker_args(&argv(&["w", "--port", "70000", "-f"]));
    assert_eq!(c.port, 9999);
    assert_eq!(c.fragment_path, None);
    assert!(parse_worker_args(&argv(&["w", "--help"])).help);
}

#[test]
fn server_args() {
    let a = parse_server_args(&argv(&["s"])).unwrap();
    assert_eq!((a.model_path.as_str(), a.port), ("model.bmlgraph", 8080));
    let b = parse_server_args(&argv(&["s", "-m", "dir", "--port", "9000", "x"])).unwrap();
    assert_eq!((b.model_path.as_str(), b.port), ("dir", 9000));
    let c = parse_server_args(&argv(&["s", "--port", "abc"])).unwrap();
    assert_eq!(c.port, 8080);
    assert!(parse_server_args(&argv(&["s", "--model"])).is_none());
    assert!(parse_server_args(&argv(&["s", "-p", "1", "-p"])).is_none());
}
