//! BML (Binary-Minus-Log) compiler core: the node grammar, hash-consed
//! DAG construction, RPN linearization, cache-sized fragmentation and the
//! binary formats exchanged between compiler, runtime and worker nodes.
pub mod api;
pub mod args;
pub mod ast;
pub mod bml_ops;
pub mod buffer;
pub mod cluster;
pub mod codec;
pub mod dag;
pub mod dataflow;
pub mod distributed;
pub mod encoder;
pub mod fragment;
pub mod gguf;
pub mod hardware;
pub mod hash_cons;
pub mod hot_loop;
pub mod kv_cache;
pub mod net;
pub mod op_fragments;
pub mod program_flow;
pub mod queue;
pub mod rpn;
pub mod scheduler;
pub mod shm;
pub mod soa;
pub mod strict_ast;
pub mod text;
pub mod tokenizer;
pub mod transformer;
