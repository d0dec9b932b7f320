# bml — Binary-Minus-Log

A compiler and runtime built on one binary operator,
`bml(x, y) = 2^x - log2(y)`, which together with the constant `1`
generates the elementary functions. Expressions become hash-consed DAGs,
DAGs become RPN programs, programs are cut into fragments that fit the L1
instruction cache, and fragments run on a stack machine, locally or on
worker nodes.

## Layout

- `src/` — the library, verified with Verus. Every public function states
  its result in `requires`/`ensures` over mathematical models (`Seq`,
  `Map`, `Set`, `int`), and the `law_*` proof functions state what holds
  across calls: byte formats read back what was written, hash-consing
  never builds a sub-tree twice, a linearized program computes the DAG it
  came from, fragments fit their threshold, waves respect dependencies,
  loops run their body `count` times.
  - `ast`, `strict_ast`, `soa`, `hash_cons`, `dag`, `transformer`,
    `encoder`: expression graphs and their construction.
  - `rpn`, `fragment`, `codec`, `op_fragments`, `hardware`: programs,
    fragmentation and the `.bmlgraph` format.
  - `hot_loop`, `program_flow`, `buffer`, `kv_cache`, `scheduler`,
    `queue`: the order in which instructions run, result buffers, the KV
    cache and scheduling.
  - `net`, `cluster`, `distributed`, `shm`, `gguf`, `tokenizer`, `args`,
    `api`, `text`: wire and file formats, worker decisions, the GGUF header,
    tokenization and argument parsing.
- `app/` — what runs around the library and is not verified: floating
  point evaluation, files, sockets, threads, the command line, the HTTP
  server and the benchmark.
- `tests/` — tests of the library on concrete values.

Floating-point values cross the library as their bit patterns (`u64` for
`f64`, `u32` for `f32`); the arithmetic on them happens in `app/`.
