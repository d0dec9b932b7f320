use bml::codec::FormatError;
use bml::distributed::{
    decode_model_header, deserialize_op, encode_model_header, fragment_file_name, header_file_name,
    append_tensor, decode_fragment_file, decode_header, decode_wire, encode_fragment_file,
    encode_header, encode_wire, head_dim, layer_fragment, layer_ranges, tensor_names,
    DistributedFragment, ModelConfig, TensorMeta,
};
use bml::distributed::{decode_model_fragments, encode_model_fragments};
use bml::fragment::Fragment;
use bml::rpn::RpnOp;

fn config() -> ModelConfig {
    ModelConfig {
        architecture: "llama".to_string(),
        n_layers: 22,
        n_heads: 32,
        n_embd: 2048,
        context_length: 2048,
        vocab_size: 32000,
    }
}

fn fragment() -> DistributedFragment {
    let mut weights = Vec::new();
    let mut tensors = Vec::new();
    append_tensor(&mut weights, &mut tensors, "blk.0.attn_norm.weight", &[1.5f32.to_bits(), 2.0f32.to_bits()], Some(&[2]));
    append_tensor(&mut weights, &mut tensors, "blk.0.attn_q.weight", &[1, 2, 3, 4, 5, 6], Some(&[2, 3]));
    append_tensor(&mut weights, &mut tensors, "ñame", &[7], None);
    layer_fragment(0, 1, false, weights, tensors, &config(), 4, head_dim(&config()))
}

#[test]
fn tensors_are_appended() {
    let f = fragment();
    assert_eq!(f.weights.len(), 9);
    assert_eq!(f.tensors.len(), 3);
    assert_eq!((f.tensors[0].offset, f.tensors[0].n_rows, f.tensors[0].n_cols), (0, 2, 1));
    assert_eq!((f.tensors[1].offset, f.tensors[1].n_rows, f.tensors[1].n_cols), (2, 2, 3));
    assert_eq!((f.tensors[2].offset, f.tensors[2].n_rows, f.tensors[2].n_cols), (8, 1, 1));
    assert_eq!(f.ops, vec![RpnOp::Var(0)]);
    assert_eq!(f.head_dim, 64);
    assert_eq!(f.fragment_id, 0);
}

#[test]
fn distributed_fragment_file_roundtrip() {
    let f = fragment();
    let bytes = encode_fragment_file(&f);
    let g = decode_fragment_file(&bytes).unwrap();
    assert_eq!(g.fragment_id, f.fragment_id);
    assert_eq!((g.layer_start, g.layer_end), (0, 1));
    assert_eq!(g.ops, f.ops);
    assert_eq!(g.weights, f.weights);
    assert_eq!(g.tensors.len(), 3);
    assert_eq!(g.tensors[2].name, "ñame");
    assert_eq!(g.tensors[1].name, "blk.0.attn_q.weight");
    assert_eq!(g.n_kv_heads, 4);
    assert_eq!(g.head_dim, 64);
    assert_eq!(g.config.architecture, "");
    assert_eq!(g.config.n_layers, 0);
}

#[test]
fn distributed_header_roundtrip() {
    let f = fragment();
    let bytes = encode_header(&[f]);
    let (c, n) = decode_header(&bytes).unwrap();
    assert_eq!(n, 1);
    assert_eq!(c.architecture, "llama");
    assert_eq!((c.n_layers, c.n_heads, c.n_embd, c.context_length, c.vocab_size), (22, 32, 2048, 2048, 32000));
    assert_eq!(decode_header(&bytes[..10]).unwrap_err(), FormatError::TooSmall);
    assert_eq!(decode_header(&bytes[..30]).unwrap_err(), FormatError::TruncatedData);
}

#[test]
fn wire_roundtrip_drops_bytecode() {
    let f = fragment();
    let bytes = encode_wire(&f);
    let g = decode_wire(&bytes).unwrap();
    assert!(g.ops.is_empty());
    assert_eq!(g.weights, f.weights);
    assert_eq!(g.config.architecture, "llama");
    assert_eq!(g.config.vocab_size, 32000);
    assert_eq!(g.tensors[0].name, "blk.0.attn_norm.weight");
    assert_eq!(decode_wire(&bytes[..12]).unwrap_err(), FormatError::TooSmall);
}

#[test]
fn invalid_utf8_names_are_replaced() {
    let mut f = fragment();
    f.tensors = vec![TensorMeta { name: "ab".to_string(), offset: 0, n_rows: 1, n_cols: 1 }];
    let mut bytes = encode_wire(&f);
    let n = bytes.len();
    // The name bytes sit before offset (8) + rows (4) + cols (4).
    bytes[n - 17] = 0xFF;
    let g = decode_wire(&bytes).unwrap();
    assert_eq!(g.tensors[0].name, "a\u{FFFD}");
}

#[test]
fn fragment_file_errors() {
    assert_eq!(decode_fragment_file(&[0; 10]).unwrap_err(), FormatError::TooSmall);
    assert_eq!(decode_fragment_file(&[0; 24]).unwrap_err(), FormatError::BadMagic(0));
}

#[test]
fn layer_cut() {
    assert_eq!(layer_ranges(22, 4), vec![(0, 4), (4, 8), (8, 12), (12, 16), (16, 20), (20, 22)]);
    assert_eq!(layer_ranges(4, 4), vec![(0, 4)]);
    assert_eq!(layer_ranges(3, 1), vec![(0, 1), (1, 2), (2, 3)]);
    assert!(layer_ranges(0, 5).is_empty());
}

#[test]
fn names_of_layer_tensors() {
    let names = tensor_names(2, 4, false);
    assert_eq!(names.len(), 18);
    assert_eq!(names[0], "blk.2.attn_norm.weight");
    assert_eq!(names[8], "blk.2.ffn_down.weight");
    assert_eq!(names[9], "blk.3.attn_norm.weight");
    assert_eq!(tensor_names(22, 23, true), vec!["output_norm.weight", "token_embd.weight"]);
    assert!(tensor_names(5, 5, false).is_empty());
}

#[test]
fn deserialize_single_ops() {
    assert_eq!(deserialize_op(&[0]), Ok((RpnOp::One, 1)));
    assert_eq!(deserialize_op(&[3, 5, 0, 0, 0, 2, 0, 0, 0, 9]), Ok((RpnOp::Loop { count: 5, body_len: 2 }, 9)));
    assert_eq!(deserialize_op(&[8, 1, 0, 0, 0]), Ok((RpnOp::StoreResult { slot: 1 }, 5)));
    assert!(deserialize_op(&[]).is_err());
    assert!(deserialize_op(&[4, 1]).is_err());
    assert!(deserialize_op(&[200]).is_err());
}

#[test]
fn model_header_roundtrip() {
    let pool: Vec<u64> = [1.5f64, -2.0, 0.0].iter().map(|x| x.to_bits()).collect();
    let bytes = encode_model_header(4, &config(), &pool);
    let (c, n, p) = decode_model_header(&bytes).unwrap();
    assert_eq!(n, 4);
    assert_eq!(c.architecture, "llama");
    assert_eq!(c.n_layers, config().n_layers);
    assert_eq!(p, pool);
    assert_eq!(bytes.len(), 12 + 8 + 5 + 20 + 8 + 24);
}

#[test]
fn model_header_errors() {
    assert_eq!(decode_model_header(&[0; 11]).unwrap_err(), FormatError::TooSmall);
    let mut bytes = encode_model_header(1, &config(), &[7]);
    bytes[0] = 0;
    assert!(matches!(decode_model_header(&bytes), Err(FormatError::BadMagic(_))));
    let bytes = encode_model_header(1, &config(), &[7, 8]);
    assert_eq!(decode_model_header(&bytes[..bytes.len() - 1]).unwrap_err(), FormatError::TruncatedData);
}

#[test]
fn model_directory_names() {
    assert_eq!(header_file_name(), "header.bmlgraph");
    assert_eq!(fragment_file_name(0), "fragment_0.bmlgraph");
    assert_eq!(fragment_file_name(12), "fragment_12.bmlgraph");
}

#[test]
fn model_directory_files_roundtrip() {
    let fragments = vec![
        Fragment { ops: vec![RpnOp::One, RpnOp::One, RpnOp::Bml] },
        Fragment { ops: vec![RpnOp::Const(3), RpnOp::Dup, RpnOp::Loop { count: 2, body_len: 1 }, RpnOp::Zero] },
        Fragment { ops: vec![] },
    ];
    let pool = vec![2.5f64.to_bits(), 0u64];
    let header = encode_model_header(fragments.len(), &config(), &pool);
    let files = encode_model_fragments(&fragments);
    assert_eq!(files.len(), 3);
    let (c, n, p) = decode_model_header(&header).unwrap();
    assert_eq!(n, 3);
    assert_eq!(p, pool);
    assert_eq!(c.architecture, "llama");
    let back = decode_model_fragments(&files).unwrap();
    let ops: Vec<Vec<RpnOp>> = back.into_iter().map(|f| f.ops).collect();
    let expected: Vec<Vec<RpnOp>> = fragments.into_iter().map(|f| f.ops).collect();
    assert_eq!(ops, expected);
    // The first file that holds no fragment is reported.
    let mut broken = files.clone();
    broken[1] = vec![1, 0];
    broken[2] = vec![];
    assert_eq!(decode_model_fragments(&broken).unwrap_err(), FormatError::TooSmall);
}
