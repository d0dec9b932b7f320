//! Command lines of the programs around the library: the benchmark, the
//! worker node and the HTTP server. Each scans its arguments from the
//! second on; a flag that takes a value reads the argument after it, and a
//! value that does not parse leaves the default in place.
use crate::text::{parse_or, parse_or_default, str_eq};
use vstd::prelude::*;

verus! {

/// The characters of each argument.
pub open spec fn arg_views(argv: Seq<String>) -> Seq<Seq<char>> {
    Seq::new(argv.len(), |i: int| argv[i]@)
}

/// Options of the benchmark program.
#[derive(Debug, Clone, Copy, PartialEq, Eq)]
pub struct BenchArgs {
    pub json: bool,
    pub md: bool,
    pub pp: u32,
    pub tg: u32,
    pub reps: u32,
    pub model: usize,
    pub multicore: bool,
    /// `-h` or `--help` was given: the usage text is printed and nothing
    /// else happens.
    pub help: bool,
}

/// The benchmark's options before any argument is read.
pub open spec fn bench_defaults() -> BenchArgs {
    BenchArgs {
        json: false,
        md: false,
        pp: 512,
        tg: 128,
        reps: 5,
        model: 0,
        multicore: false,
        help: false,
    }
}

/// The benchmark's options after reading the arguments from `i` on,
/// starting from `a`.
pub open spec fn bench_scan(argv: Seq<Seq<char>>, i: int, a: BenchArgs) -> BenchArgs
    decreases argv.len() - i,
{
    if i >= argv.len() {
        a
    } else {
        let f = argv[i];
        let has_value = i + 1 < argv.len();
        if f == "--json"@ {
            bench_scan(argv, i + 1, BenchArgs { json: true, ..a })
        } else if f == "--md"@ {
            bench_scan(argv, i + 1, BenchArgs { md: true, ..a })
        } else if f == "--multicore"@ {
            bench_scan(argv, i + 1, BenchArgs { multicore: true, ..a })
        } else if f == "--pp"@ {
            if has_value {
                bench_scan(argv, i + 2, BenchArgs { pp: parse_or(argv[i + 1], u32::MAX as nat, 512) as u32, ..a })
            } else {
                a
            }
        } else if f == "--tg"@ {
            if has_value {
                bench_scan(argv, i + 2, BenchArgs { tg: parse_or(argv[i + 1], u32::MAX as nat, 128) as u32, ..a })
            } else {
                a
            }
        } else if f == "--reps"@ {
            if has_value {
                bench_scan(argv, i + 2, BenchArgs { reps: parse_or(argv[i + 1], u32::MAX as nat, 5) as u32, ..a })
            } else {
                a
            }
        } else if f == "--model"@ {
            if has_value {
                bench_scan(argv, i + 2, BenchArgs { model: parse_or(argv[i + 1], usize::MAX as nat, 0) as usize, ..a })
            } else {
                a
            }
        } else if f == "-h"@ || f == "--help"@ {
            BenchArgs { help: true, ..a }
        } else {
            bench_scan(argv, i + 1, a)
        }
    }
}

/// The benchmark's options for the command line `argv` (program name
/// first); without `--json` and `--md` the output is markdown.
pub open spec fn bench_args_spec(argv: Seq<Seq<char>>) -> BenchArgs {
    let a = bench_scan(argv, 1, bench_defaults());
    if !a.help && !a.json && !a.md {
        BenchArgs { md: true, ..a }
    } else {
        a
    }
}

/// Reads the benchmark's command line.
pub fn parse_bench_args(argv: &[String]) -> (a: BenchArgs)
    ensures
        a == bench_args_spec(arg_views(argv@)),
{
    let ghost views = arg_views(argv@);
    let mut a = BenchArgs {
        json: false,
        md: false,
        pp: 512,
        tg: 128,
        reps: 5,
        model: 0,
        multicore: false,
        help: false,
    };
    let mut i: usize = 1;
    while i < argv.len()
        invariant
            views == arg_views(argv@),
            1 <= i <= argv@.len() || argv@.len() == 0,
            bench_scan(views, 1, bench_defaults()) == bench_scan(views, i as int, a),
            !a.help,
        decreases argv.len() - i,
    {
        let f = argv[i].as_str();
        let has_value = i + 1 < argv.len();
        assert(views[i as int] == f@);
        if str_eq(f, "--json") {
            a.json = true;
            i = i + 1;
        } else if str_eq(f, "--md") {
            a.md = true;
            i = i + 1;
        } else if str_eq(f, "--multicore") {
            a.multicore = true;
            i = i + 1;
        } else if str_eq(f, "--pp") {
            if has_value {
                assert(views[i + 1] == argv@[i + 1]@);
                a.pp = parse_or_default(argv[i + 1].as_str(), 0xffff_ffff, 512) as u32;
                i = i + 2;
            } else {
                i = argv.len();
            }
        } else if str_eq(f, "--tg") {
            if has_value {
                assert(views[i + 1] == argv@[i + 1]@);
                a.tg = parse_or_default(argv[i + 1].as_str(), 0xffff_ffff, 128) as u32;
                i = i + 2;
            } else {
                i = argv.len();
            }
        } else if str_eq(f, "--reps") {
            if has_value {
                assert(views[i + 1] == argv@[i + 1]@);
                a.reps = parse_or_default(argv[i + 1].as_str(), 0xffff_ffff, 5) as u32;
                i = i + 2;
            } else {
                i = argv.len();
            }
        } else if str_eq(f, "--model") {
            if has_value {
                assert(views[i + 1] == argv@[i + 1]@);
                a.model = parse_or_default(argv[i + 1].as_str(), usize::MAX, 0);
                i = i + 2;
            } else {
                i = argv.len();
            }
        } else if str_eq(f, "-h") || str_eq(f, "--help") {
            a.help = true;
            return a;
        } else {
            i = i + 1;
        }
    }
    if !a.json && !a.md {
        a.md = true;
    }
    a
}

/// Options of a worker node.
#[derive(Debug, Clone, PartialEq, Eq)]
pub struct WorkerArgs {
    pub port: u16,
    /// Fragment file to load before serving.
    pub fragment_path: Option<String>,
    /// `-h` or `--help` was given: the usage text is printed and nothing
    /// else happens.
    pub help: bool,
}

/// A worker's options as plain values: port, fragment path, help.
pub type WorkerArgsView = (u16, Option<Seq<char>>, bool);

/// The worker's options after reading the arguments from `i` on,
/// starting from `a`.
pub open spec fn worker_scan(argv: Seq<Seq<char>>, i: int, a: WorkerArgsView) -> WorkerArgsView
    decreases argv.len() - i,
{
    if i >= argv.len() {
        a
    } else {
        let f = argv[i];
        let has_value = i + 1 < argv.len();
        if f == "--port"@ || f == "-p"@ {
            if has_value {
                worker_scan(argv, i + 2, (parse_or(argv[i + 1], u16::MAX as nat, 9999) as u16, a.1, a.2))
            } else {
                a
            }
        } else if f == "--fragment"@ || f == "-f"@ {
            if has_value {
                worker_scan(argv, i + 2, (a.0, Some(argv[i + 1]), a.2))
            } else {
                a
            }
        } else if f == "-h"@ || f == "--help"@ {
            (a.0, a.1, true)
        } else {
            worker_scan(argv, i + 1, a)
        }
    }
}

/// The worker's options for the command line `argv` (program name
/// first): port 9999 and no fragment unless given.
pub open spec fn worker_args_spec(argv: Seq<Seq<char>>) -> WorkerArgsView {
    worker_scan(argv, 1, (9999u16, None, false))
}

impl WorkerArgs {
    /// The options as plain values.
    pub open spec fn view_tuple(&self) -> WorkerArgsView {
        (
            self.port,
            match self.fragment_path {
                Some(p) => Some(p@),
                None => None,
            },
            self.help,
        )
    }
}

/// Reads a worker's command line.
pub fn parse_worker_args(argv: &[String]) -> (a: WorkerArgs)
    ensures
        a.view_tuple() == worker_args_spec(arg_views(argv@)),
{
    let ghost views = arg_views(argv@);
    let mut a = WorkerArgs { port: 9999, fragment_path: None, help: false };
    let mut i: usize = 1;
    while i < argv.len()
        invariant
            views == arg_views(argv@),
            1 <= i <= argv@.len() || argv@.len() == 0,
            worker_args_spec(views) == worker_scan(views, i as int, a.view_tuple()),
            !a.help,
        decreases argv.len() - i,
    {
        let f = argv[i].as_str();
        let has_value = i + 1 < argv.len();
        assert(views[i as int] == f@);
        if str_eq(f, "--port") || str_eq(f, "-p") {
            if has_value {
                assert(views[i + 1] == argv@[i + 1]@);
                a.port = parse_or_default(argv[i + 1].as_str(), 0xffff, 9999) as u16;
                i = i + 2;
            } else {
                i = argv.len();
            }
        } else if str_eq(f, "--fragment") || str_eq(f, "-f") {
            if has_value {
                assert(views[i + 1] == argv@[i + 1]@);
                a.fragment_path = Some(argv[i + 1].clone());
                i = i + 2;
            } else {
                i = argv.len();
            }
        } else if str_eq(f, "-h") || str_eq(f, "--help") {
            a.help = true;
            return a;
        } else {
            i = i + 1;
        }
    }
    a
}

/// Options of the HTTP server.
#[derive(Debug, Clone, PartialEq, Eq)]
pub struct ServerArgs {
    /// Directory of the compiled model.
    pub model_path: String,
    pub port: u16,
}

/// The server's options after reading the arguments from `i` on, starting
/// from `(model_path, port)`; `None` where a flag that takes a value is
/// the last argument.
pub open spec fn server_scan(argv: Seq<Seq<char>>, i: int, a: (Seq<char>, u16)) -> Option<
    (Seq<char>, u16),
>
    decreases argv.len() - i,
{
    if i >= argv.len() {
        Some(a)
    } else {
        let f = argv[i];
        if f == "--model"@ || f == "-m"@ {
            if i + 1 < argv.len() {
                server_scan(argv, i + 2, (argv[i + 1], a.1))
            } else {
                None
            }
        } else if f == "--port"@ || f == "-p"@ {
            if i + 1 < argv.len() {
                server_scan(argv, i + 2, (a.0, parse_or(argv[i + 1], u16::MAX as nat, 8080) as u16))
            } else {
                None
            }
        } else {
            server_scan(argv, i + 1, a)
        }
    }
}

/// The server's options for the command line `argv` (program name
/// first): `model.bmlgraph` on port 8080 unless given.
pub open spec fn server_args_spec(argv: Seq<Seq<char>>) -> Option<(Seq<char>, u16)> {
    server_scan(argv, 1, ("model.bmlgraph"@, 8080u16))
}

/// Reads the server's command line; `None` where `--model`, `-m`,
/// `--port` or `-p` is the last argument and has no value.
pub fn parse_server_args(argv: &[String]) -> (r: Option<ServerArgs>)
    ensures
        match r {
            Some(a) => server_args_spec(arg_views(argv@)) == Some((a.model_path@, a.port)),
            None => server_args_spec(arg_views(argv@)) is None,
        },
{
    let ghost views = arg_views(argv@);
    let mut model_path = String::from_str("model.bmlgraph");
    let mut port: u16 = 8080;
    let mut i: usize = 1;
    while i < argv.len()
        invariant
            views == arg_views(argv@),
            1 <= i <= argv@.len() || argv@.len() == 0,
            server_args_spec(views) == server_scan(views, i as int, (model_path@, port)),
        decreases argv.len() - i,
    {
        let f = argv[i].as_str();
        assert(views[i as int] == f@);
        if str_eq(f, "--model") || str_eq(f, "-m") {
            if i + 1 >= argv.len() {
                return None;
            }
            assert(views[i + 1] == argv@[i + 1]@);
            model_path = argv[i + 1].clone();
            i = i + 2;
        } else if str_eq(f, "--port") || str_eq(f, "-p") {
            if i + 1 >= argv.len() {
                return None;
            }
            assert(views[i + 1] == argv@[i + 1]@);
            port = parse_or_default(argv[i + 1].as_str(), 0xffff, 8080) as u16;
            i = i + 2;
        } else {
            i = i + 1;
        }
    }
    Some(ServerArgs { model_path, port })
}

} // verus!
