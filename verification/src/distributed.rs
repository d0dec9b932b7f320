//! Self-contained fragments for distributed execution.
//!
//! A model is cut by transformer layers; each fragment carries its RPN
//! bytecode, the weights of its layers and the description of their
//! tensors, so that one node can run its part without the model file.
//! Weights are held as the bit patterns of their `f32` values.
//!
//! Fragment file (`fragment_N.bmlgraph`):
//!
//! ```text
//! [magic u32][version u32][fragment_id u32][layer_start u32][layer_end u32]
//! [n_ops u32][ops...]
//! [n_weights u64][weights: n_weights × u32]
//! [n_tensors u32]([name_len u32][name][offset u64][n_rows u32][n_cols u32]) × n_tensors
//! [n_kv_heads u32][head_dim u32]
//! ```
//!
//! Header file (`header.bmlgraph`):
//!
//! ```text
//! [magic u32][version u32][n_fragments u32][arch_len u64][arch]
//! [n_layers u32][n_heads u32][n_embd u32][context_length u32][vocab_size u32]
//! ```
//!
//! Wire form sent between nodes (no bytecode):
//!
//! ```text
//! [fragment_id u32][layer_start u32][layer_end u32][arch_len u32][arch]
//! [n_layers u32][n_heads u32][n_embd u32][context_length u32][vocab_size u32]
//! [n_kv_heads u32][head_dim u32][n_weights u64][weights...][n_tensors u32][tensors...]
//! ```
use crate::codec::{
    FormatError,
    decode_op,
    decode_op_at,
    decode_ops,
    decode_ops_at,
    encode_ops,
    encode_ops_into,
    le32,
    le64,
    lemma_decode_encode_ops,
    lemma_le32_roundtrip,
    lemma_le64_roundtrip,
    push_u32_le,
    push_u64_le,
    read_le32,
    read_le64,
    read_u32_le,
    read_u64_le,
};
use crate::fragment::{frag_seqs, Fragment, BMLGRAPH_MAGIC, BMLGRAPH_VERSION};
use crate::shm::{decode_shm_fragment, encode_shm_fragment, law_shm_roundtrip, shm_bytes, shm_decode_spec};
use crate::rpn::RpnOp;
use crate::op_fragments::{layer_name, layer_op_name};
use crate::text::{decimal, decimal_string};
use crate::tokenizer::token_views;
use vstd::prelude::*;
use vstd::utf8::{decode_utf8, encode_utf8, valid_utf8};

verus! {

/// Description of a tensor inside a fragment.
#[derive(Debug, Clone)]
pub struct TensorMeta {
    /// Name of the tensor.
    pub name: String,
    /// Index of its first weight in the fragment's weights.
    pub offset: u64,
    /// Number of rows.
    pub n_rows: u32,
    /// Number of columns.
    pub n_cols: u32,
}

/// Shape of a transformer model.
#[derive(Debug, Clone)]
pub struct ModelConfig {
    /// Architecture name (for instance `"llama"`).
    pub architecture: String,
    /// Number of transformer layers.
    pub n_layers: u32,
    /// Number of attention heads.
    pub n_heads: u32,
    /// Embedding width.
    pub n_embd: u32,
    /// Context length.
    pub context_length: u32,
    /// Vocabulary size.
    pub vocab_size: u32,
}

/// A fragment that one node can run on its own.
#[derive(Debug, Clone)]
pub struct DistributedFragment {
    /// Id of the fragment.
    pub fragment_id: u32,
    /// First layer (inclusive).
    pub layer_start: u32,
    /// Last layer (exclusive).
    pub layer_end: u32,
    /// RPN bytecode.
    pub ops: Vec<RpnOp>,
    /// Weights of the fragment's layers, as `f32` bit patterns, one tensor
    /// after the other.
    pub weights: Vec<u32>,
    /// Where each tensor lies in `weights`.
    pub tensors: Vec<TensorMeta>,
    /// Shape of the model.
    pub config: ModelConfig,
    /// Number of key/value heads.
    pub n_kv_heads: u32,
    /// Width of one head.
    pub head_dim: u32,
}

/// A tensor description as plain values.
pub struct TensorMetaView {
    pub name: Seq<char>,
    pub offset: u64,
    pub n_rows: u32,
    pub n_cols: u32,
}

/// A model shape as plain values.
pub struct ModelConfigView {
    pub architecture: Seq<char>,
    pub n_layers: u32,
    pub n_heads: u32,
    pub n_embd: u32,
    pub context_length: u32,
    pub vocab_size: u32,
}

/// A distributed fragment as plain values.
pub struct FragmentView {
    pub fragment_id: u32,
    pub layer_start: u32,
    pub layer_end: u32,
    pub ops: Seq<RpnOp>,
    pub weights: Seq<u32>,
    pub tensors: Seq<TensorMetaView>,
    pub config: ModelConfigView,
    pub n_kv_heads: u32,
    pub head_dim: u32,
}

impl View for TensorMeta {
    type V = TensorMetaView;

    open spec fn view(&self) -> TensorMetaView {
        TensorMetaView {
            name: self.name@,
            offset: self.offset,
            n_rows: self.n_rows,
            n_cols: self.n_cols,
        }
    }
}

impl View for ModelConfig {
    type V = ModelConfigView;

    open spec fn view(&self) -> ModelConfigView {
        ModelConfigView {
            architecture: self.architecture@,
            n_layers: self.n_layers,
            n_heads: self.n_heads,
            n_embd: self.n_embd,
            context_length: self.context_length,
            vocab_size: self.vocab_size,
        }
    }
}

/// Views of tensor descriptions.
pub open spec fn tensor_views(ts: Seq<TensorMeta>) -> Seq<TensorMetaView> {
    ts.map_values(|t: TensorMeta| t@)
}

impl View for DistributedFragment {
    type V = FragmentView;

    open spec fn view(&self) -> FragmentView {
        FragmentView {
            fragment_id: self.fragment_id,
            layer_start: self.layer_start,
            layer_end: self.layer_end,
            ops: self.ops@,
            weights: self.weights@,
            tensors: tensor_views(self.tensors@),
            config: self.config@,
            n_kv_heads: self.n_kv_heads,
            head_dim: self.head_dim,
        }
    }
}

/// The empty model shape that a fragment read from its file carries: the
/// shape is in the header file.
pub open spec fn empty_config() -> ModelConfigView {
    ModelConfigView {
        architecture: Seq::empty(),
        n_layers: 0,
        n_heads: 0,
        n_embd: 0,
        context_length: 0,
        vocab_size: 0,
    }
}

// ---------------------------------------------------------------------------
// Text
// ---------------------------------------------------------------------------

/// What `String::from_utf8_lossy` gives for bytes that are not valid UTF-8.
pub uninterp spec fn utf8_lossy(bytes: Seq<u8>) -> Seq<char>;

/// Text of a byte string: its UTF-8 decoding when valid, otherwise the
/// lossy decoding of `String::from_utf8_lossy`.
pub open spec fn text_of(bytes: Seq<u8>) -> Seq<char> {
    if valid_utf8(bytes) {
        decode_utf8(bytes)
    } else {
        utf8_lossy(bytes)
    }
}

/// `String::from_utf8_lossy`: valid UTF-8 is decoded as it is; invalid
/// sequences become replacement characters.
#[verifier::external_body]
fn utf8_text(bytes: &[u8]) -> (s: String)
    ensures
        valid_utf8(bytes@) ==> s@ == decode_utf8(bytes@),
        !valid_utf8(bytes@) ==> s@ == utf8_lossy(bytes@),
{
    String::from_utf8_lossy(bytes).into_owned()
}

/// A text written with a `u32` byte length (truncated if larger).
pub open spec fn text32_bytes(s: Seq<char>) -> Seq<u8> {
    le32(encode_utf8(s).len() as u32) + encode_utf8(s)
}

/// A text written with a `u64` byte length.
pub open spec fn text64_bytes(s: Seq<char>) -> Seq<u8> {
    le64(encode_utf8(s).len() as u64) + encode_utf8(s)
}

fn push_bytes(out: &mut Vec<u8>, b: &[u8])
    ensures
        final(out)@ == old(out)@ + b@,
{
    let mut i: usize = 0;
    while i < b.len()
        invariant
            i <= b@.len(),
            out@ == old(out)@ + b@.subrange(0, i as int),
        decreases b@.len() - i,
    {
        out.push(b[i]);
        assert(b@.subrange(0, i + 1) =~= b@.subrange(0, i as int).push(b@[i as int]));
        i += 1;
    }
    assert(b@.subrange(0, i as int) =~= b@);
}

fn push_text32(out: &mut Vec<u8>, s: &String)
    ensures
        final(out)@ == old(out)@ + text32_bytes(s@),
{
    let b = s.as_str().as_bytes();
    #[verifier::truncate]
    let n = b.len() as u32;
    push_u32_le(out, n);
    push_bytes(out, b);
    assert(out@ =~= old(out)@ + text32_bytes(s@));
}

fn push_text64(out: &mut Vec<u8>, s: &String)
    ensures
        final(out)@ == old(out)@ + text64_bytes(s@),
{
    let b = s.as_str().as_bytes();
    push_u64_le(out, b.len() as u64);
    push_bytes(out, b);
    assert(out@ =~= old(out)@ + text64_bytes(s@));
}

// ---------------------------------------------------------------------------
// Reading fields
// ---------------------------------------------------------------------------

/// Reads a `u32` at `off`.
pub open spec fn rd32(b: Seq<u8>, off: int) -> Result<(u32, int), FormatError> {
    if off + 4 <= b.len() {
        Ok((read_le32(b, off), off + 4))
    } else {
        Err(FormatError::TruncatedData)
    }
}

/// Reads a `u64` at `off`.
pub open spec fn rd64(b: Seq<u8>, off: int) -> Result<(u64, int), FormatError> {
    if off + 8 <= b.len() {
        Ok((read_le64(b, off), off + 8))
    } else {
        Err(FormatError::TruncatedData)
    }
}

/// Reads `n` bytes of text at `off`.
pub open spec fn rd_text(b: Seq<u8>, off: int, n: nat) -> Result<(Seq<char>, int), FormatError> {
    if off + n <= b.len() {
        Ok((text_of(b.subrange(off, off + n)), off + n))
    } else {
        Err(FormatError::TruncatedData)
    }
}

/// Reads a text with a `u32` length at `off`.
pub open spec fn rd_text32(b: Seq<u8>, off: int) -> Result<(Seq<char>, int), FormatError> {
    match rd32(b, off) {
        Err(e) => Err(e),
        Ok((n, o)) => rd_text(b, o, n as nat),
    }
}

/// Reads a text with a `u64` length at `off`.
pub open spec fn rd_text64(b: Seq<u8>, off: int) -> Result<(Seq<char>, int), FormatError> {
    match rd64(b, off) {
        Err(e) => Err(e),
        Ok((n, o)) => rd_text(b, o, n as nat),
    }
}

/// Weights written one after the other.
pub open spec fn weights_bytes(ws: Seq<u32>) -> Seq<u8>
    decreases ws.len(),
{
    if ws.len() == 0 {
        Seq::empty()
    } else {
        weights_bytes(ws.drop_last()) + le32(ws.last())
    }
}

/// Reads `n` weights at `off`.
pub open spec fn rd_weights(b: Seq<u8>, off: int, n: nat) -> Result<(Seq<u32>, int), FormatError>
    decreases n,
{
    if n == 0 {
        Ok((Seq::empty(), off))
    } else {
        match rd_weights(b, off, (n - 1) as nat) {
            Err(e) => Err(e),
            Ok((ws, o)) => match rd32(b, o) {
                Err(e) => Err(e),
                Ok((w, o2)) => Ok((ws.push(w), o2)),
            },
        }
    }
}

/// Bytes of one tensor description.
pub open spec fn tensor_bytes(t: TensorMetaView) -> Seq<u8> {
    text32_bytes(t.name) + le64(t.offset) + le32(t.n_rows) + le32(t.n_cols)
}

/// Tensor descriptions written one after the other.
pub open spec fn tensors_bytes(ts: Seq<TensorMetaView>) -> Seq<u8>
    decreases ts.len(),
{
    if ts.len() == 0 {
        Seq::empty()
    } else {
        tensors_bytes(ts.drop_last()) + tensor_bytes(ts.last())
    }
}

/// Reads one tensor description at `off`.
pub open spec fn rd_tensor(b: Seq<u8>, off: int) -> Result<(TensorMetaView, int), FormatError> {
    match rd_text32(b, off) {
        Err(e) => Err(e),
        Ok((name, o1)) => match rd64(b, o1) {
            Err(e) => Err(e),
            Ok((offset, o2)) => match rd32(b, o2) {
                Err(e) => Err(e),
                Ok((n_rows, o3)) => match rd32(b, o3) {
                    Err(e) => Err(e),
                    Ok((n_cols, o4)) => Ok((TensorMetaView { name, offset, n_rows, n_cols }, o4)),
                },
            },
        },
    }
}

/// Reads `n` tensor descriptions at `off`.
pub open spec fn rd_tensors(b: Seq<u8>, off: int, n: nat) -> Result<
    (Seq<TensorMetaView>, int),
    FormatError,
>
    decreases n,
{
    if n == 0 {
        Ok((Seq::empty(), off))
    } else {
        match rd_tensors(b, off, (n - 1) as nat) {
            Err(e) => Err(e),
            Ok((ts, o)) => match rd_tensor(b, o) {
                Err(e) => Err(e),
                Ok((t, o2)) => Ok((ts.push(t), o2)),
            },
        }
    }
}

#[verifier::spinoff_prover]
proof fn lemma_rd_weights_err(b: Seq<u8>, off: int, k: nat, n: nat)
    requires
        k <= n,
        rd_weights(b, off, k) is Err,
    ensures
        rd_weights(b, off, n) == rd_weights(b, off, k),
    decreases n - k,
{
    if k < n {
        lemma_rd_weights_err(b, off, k, (n - 1) as nat);
    }
}

#[verifier::spinoff_prover]
proof fn lemma_rd_tensors_err(b: Seq<u8>, off: int, k: nat, n: nat)
    requires
        k <= n,
        rd_tensors(b, off, k) is Err,
    ensures
        rd_tensors(b, off, n) == rd_tensors(b, off, k),
    decreases n - k,
{
    if k < n {
        lemma_rd_tensors_err(b, off, k, (n - 1) as nat);
    }
}

fn take_u32(bytes: &[u8], off: usize) -> (r: Result<(u32, usize), FormatError>)
    ensures
        match r {
            Ok((v, o)) => rd32(bytes@, off as int) == Ok::<(u32, int), FormatError>((v, o as int)),
            Err(e) => rd32(bytes@, off as int) == Err::<(u32, int), FormatError>(e),
        },
{
    if off > bytes.len() || bytes.len() - off < 4 {
        Err(FormatError::TruncatedData)
    } else {
        Ok((read_u32_le(bytes, off), off + 4))
    }
}

fn take_u64(bytes: &[u8], off: usize) -> (r: Result<(u64, usize), FormatError>)
    ensures
        match r {
            Ok((v, o)) => rd64(bytes@, off as int) == Ok::<(u64, int), FormatError>((v, o as int)),
            Err(e) => rd64(bytes@, off as int) == Err::<(u64, int), FormatError>(e),
        },
{
    if off > bytes.len() || bytes.len() - off < 8 {
        Err(FormatError::TruncatedData)
    } else {
        Ok((read_u64_le(bytes, off), off + 8))
    }
}

fn take_text(bytes: &[u8], off: usize, n: u64) -> (r: Result<(String, usize), FormatError>)
    ensures
        match r {
            Ok((s, o)) => rd_text(bytes@, off as int, n as nat) == Ok::<(Seq<char>, int), FormatError>(
                (s@, o as int),
            ),
            Err(e) => rd_text(bytes@, off as int, n as nat) == Err::<(Seq<char>, int), FormatError>(
                e,
            ),
        },
{
    if off > bytes.len() || ((bytes.len() - off) as u64) < n {
        return Err(FormatError::TruncatedData);
    }
    let end = off + n as usize;
    let piece = vstd::slice::slice_subrange(bytes, off, end);
    Ok((utf8_text(piece), end))
}

fn take_text32(bytes: &[u8], off: usize) -> (r: Result<(String, usize), FormatError>)
    ensures
        match r {
            Ok((s, o)) => rd_text32(bytes@, off as int) == Ok::<(Seq<char>, int), FormatError>(
                (s@, o as int),
            ),
            Err(e) => rd_text32(bytes@, off as int) == Err::<(Seq<char>, int), FormatError>(e),
        },
{
    let (n, o) = match take_u32(bytes, off) {
        Err(e) => return Err(e),
        Ok(x) => x,
    };
    take_text(bytes, o, n as u64)
}

fn take_text64(bytes: &[u8], off: usize) -> (r: Result<(String, usize), FormatError>)
    ensures
        match r {
            Ok((s, o)) => rd_text64(bytes@, off as int) == Ok::<(Seq<char>, int), FormatError>(
                (s@, o as int),
            ),
            Err(e) => rd_text64(bytes@, off as int) == Err::<(Seq<char>, int), FormatError>(e),
        },
{
    let (n, o) = match take_u64(bytes, off) {
        Err(e) => return Err(e),
        Ok(x) => x,
    };
    take_text(bytes, o, n)
}

fn take_weights(bytes: &[u8], off: usize, n: u64) -> (r: Result<(Vec<u32>, usize), FormatError>)
    ensures
        match r {
            Ok((ws, o)) => rd_weights(bytes@, off as int, n as nat) == Ok::<
                (Seq<u32>, int),
                FormatError,
            >((ws@, o as int)),
            Err(e) => rd_weights(bytes@, off as int, n as nat) == Err::<(Seq<u32>, int), FormatError>(
                e,
            ),
        },
{
    let mut ws: Vec<u32> = Vec::new();
    let mut o = off;
    let mut k: u64 = 0;
    while k < n
        invariant
            k <= n,
            rd_weights(bytes@, off as int, k as nat) == Ok::<(Seq<u32>, int), FormatError>(
                (ws@, o as int),
            ),
        decreases n - k,
    {
        match take_u32(bytes, o) {
            Err(e) => {
                proof {
                    lemma_rd_weights_err(bytes@, off as int, (k + 1) as nat, n as nat);
                }
                return Err(e);
            },
            Ok((w, o2)) => {
                ws.push(w);
                o = o2;
            },
        }
        k += 1;
    }
    Ok((ws, o))
}

fn take_tensor(bytes: &[u8], off: usize) -> (r: Result<(TensorMeta, usize), FormatError>)
    ensures
        match r {
            Ok((t, o)) => rd_tensor(bytes@, off as int) == Ok::<(TensorMetaView, int), FormatError>(
                (t@, o as int),
            ),
            Err(e) => rd_tensor(bytes@, off as int) == Err::<(TensorMetaView, int), FormatError>(e),
        },
{
    let (name, o1) = match take_text32(bytes, off) {
        Err(e) => return Err(e),
        Ok(x) => x,
    };
    let (offset, o2) = match take_u64(bytes, o1) {
        Err(e) => return Err(e),
        Ok(x) => x,
    };
    let (n_rows, o3) = match take_u32(bytes, o2) {
        Err(e) => return Err(e),
        Ok(x) => x,
    };
    let (n_cols, o4) = match take_u32(bytes, o3) {
        Err(e) => return Err(e),
        Ok(x) => x,
    };
    Ok((TensorMeta { name, offset, n_rows, n_cols }, o4))
}

fn take_tensors(bytes: &[u8], off: usize, n: u32) -> (r: Result<(Vec<TensorMeta>, usize), FormatError>)
    ensures
        match r {
            Ok((ts, o)) => rd_tensors(bytes@, off as int, n as nat) == Ok::<
                (Seq<TensorMetaView>, int),
                FormatError,
            >((tensor_views(ts@), o as int)),
            Err(e) => rd_tensors(bytes@, off as int, n as nat) == Err::<
                (Seq<TensorMetaView>, int),
                FormatError,
            >(e),
        },
{
    let mut ts: Vec<TensorMeta> = Vec::new();
    let mut o = off;
    let mut k: u32 = 0;
    assert(tensor_views(ts@) =~= Seq::<TensorMetaView>::empty());
    while k < n
        invariant
            k <= n,
            rd_tensors(bytes@, off as int, k as nat) == Ok::<(Seq<TensorMetaView>, int), FormatError>(
                (tensor_views(ts@), o as int),
            ),
        decreases n - k,
    {
        match take_tensor(bytes, o) {
            Err(e) => {
                proof {
                    lemma_rd_tensors_err(bytes@, off as int, (k + 1) as nat, n as nat);
                }
                return Err(e);
            },
            Ok((t, o2)) => {
                let ghost before = ts@;
                ts.push(t);
                assert(tensor_views(ts@) =~= tensor_views(before).push(t@));
                o = o2;
            },
        }
        k += 1;
    }
    Ok((ts, o))
}

fn push_weights(out: &mut Vec<u8>, ws: &[u32])
    ensures
        final(out)@ == old(out)@ + weights_bytes(ws@),
{
    let mut i: usize = 0;
    while i < ws.len()
        invariant
            i <= ws@.len(),
            out@ == old(out)@ + weights_bytes(ws@.subrange(0, i as int)),
        decreases ws@.len() - i,
    {
        push_u32_le(out, ws[i]);
        assert(ws@.subrange(0, i + 1).drop_last() =~= ws@.subrange(0, i as int));
        assert(out@ =~= old(out)@ + weights_bytes(ws@.subrange(0, i + 1)));
        i += 1;
    }
    assert(ws@.subrange(0, i as int) =~= ws@);
}

fn push_tensors(out: &mut Vec<u8>, ts: &[TensorMeta])
    ensures
        final(out)@ == old(out)@ + tensors_bytes(tensor_views(ts@)),
{
    let ghost tv = tensor_views(ts@);
    let mut i: usize = 0;
    while i < ts.len()
        invariant
            tv == tensor_views(ts@),
            i <= ts@.len(),
            out@ == old(out)@ + tensors_bytes(tv.subrange(0, i as int)),
        decreases ts@.len() - i,
    {
        let t = &ts[i];
        push_text32(out, &t.name);
        push_u64_le(out, t.offset);
        push_u32_le(out, t.n_rows);
        push_u32_le(out, t.n_cols);
        assert(tv.subrange(0, i + 1).drop_last() =~= tv.subrange(0, i as int));
        assert(tv[i as int] == t@);
        assert(out@ =~= old(out)@ + tensors_bytes(tv.subrange(0, i + 1)));
        i += 1;
    }
    assert(tv.subrange(0, i as int) =~= tv);
}

// ---------------------------------------------------------------------------
// Fragment file
// ---------------------------------------------------------------------------

/// Bytes of the file of a fragment; counts are written at their field
/// width (truncated if larger).
pub open spec fn fragment_file_bytes(f: FragmentView) -> Seq<u8> {
    le32(BMLGRAPH_MAGIC) + le32(BMLGRAPH_VERSION) + le32(f.fragment_id) + le32(f.layer_start) + le32(
        f.layer_end,
    ) + le32(f.ops.len() as u32) + encode_ops(f.ops) + le64(f.weights.len() as u64) + weights_bytes(
        f.weights,
    ) + le32(f.tensors.len() as u32) + tensors_bytes(f.tensors) + le32(f.n_kv_heads) + le32(
        f.head_dim,
    )
}

/// The fragment a fragment file holds, with an empty model shape, or why
/// it holds none. The version is not checked; bytes after the last field
/// are ignored.
pub open spec fn fragment_file_spec(b: Seq<u8>) -> Result<FragmentView, FormatError> {
    if b.len() < 20 {
        Err(FormatError::TooSmall)
    } else if read_le32(b, 0) != BMLGRAPH_MAGIC {
        Err(FormatError::BadMagic(read_le32(b, 0)))
    } else {
        match rd32(b, 20) {
            Err(e) => Err(e),
            Ok((n_ops, o1)) => match decode_ops(b, o1, n_ops as nat) {
                Err(e) => Err(e),
                Ok((ops, o2)) => match rd64(b, o2) {
                    Err(e) => Err(e),
                    Ok((n_weights, o3)) => match rd_weights(b, o3, n_weights as nat) {
                        Err(e) => Err(e),
                        Ok((weights, o4)) => match rd32(b, o4) {
                            Err(e) => Err(e),
                            Ok((n_tensors, o5)) => match rd_tensors(b, o5, n_tensors as nat) {
                                Err(e) => Err(e),
                                Ok((tensors, o6)) => match rd32(b, o6) {
                                    Err(e) => Err(e),
                                    Ok((n_kv_heads, o7)) => match rd32(b, o7) {
                                        Err(e) => Err(e),
                                        Ok((head_dim, _)) => Ok(
                                            FragmentView {
                                                fragment_id: read_le32(b, 8),
                                                layer_start: read_le32(b, 12),
                                                layer_end: read_le32(b, 16),
                                                ops,
                                                weights,
                                                tensors,
                                                config: empty_config(),
                                                n_kv_heads,
                                                head_dim,
                                            },
                                        ),
                                    },
                                },
                            },
                        },
                    },
                },
            },
        }
    }
}

/// The bytes of the file of `frag`.
pub fn encode_fragment_file(frag: &DistributedFragment) -> (bytes: Vec<u8>)
    ensures
        bytes@ == fragment_file_bytes(frag@),
{
    let mut bytes: Vec<u8> = Vec::new();
    push_u32_le(&mut bytes, BMLGRAPH_MAGIC);
    push_u32_le(&mut bytes, BMLGRAPH_VERSION);
    push_u32_le(&mut bytes, frag.fragment_id);
    push_u32_le(&mut bytes, frag.layer_start);
    push_u32_le(&mut bytes, frag.layer_end);
    #[verifier::truncate]
    let n_ops = frag.ops.len() as u32;
    push_u32_le(&mut bytes, n_ops);
    encode_ops_into(frag.ops.as_slice(), &mut bytes);
    push_u64_le(&mut bytes, frag.weights.len() as u64);
    push_weights(&mut bytes, frag.weights.as_slice());
    #[verifier::truncate]
    let n_tensors = frag.tensors.len() as u32;
    push_u32_le(&mut bytes, n_tensors);
    push_tensors(&mut bytes, frag.tensors.as_slice());
    push_u32_le(&mut bytes, frag.n_kv_heads);
    push_u32_le(&mut bytes, frag.head_dim);
    assert(bytes@ =~= fragment_file_bytes(frag@));
    bytes
}

fn empty_model_config() -> (c: ModelConfig)
    ensures
        c@ == empty_config(),
{
    ModelConfig {
        architecture: String::new(),
        n_layers: 0,
        n_heads: 0,
        n_embd: 0,
        context_length: 0,
        vocab_size: 0,
    }
}

/// Reads the file of a fragment; the model shape is left empty (it is in
/// the header file).
pub fn decode_fragment_file(bytes: &[u8]) -> (r: Result<DistributedFragment, FormatError>)
    ensures
        match r {
            Ok(f) => fragment_file_spec(bytes@) == Ok::<FragmentView, FormatError>(f@),
            Err(e) => fragment_file_spec(bytes@) == Err::<FragmentView, FormatError>(e),
        },
{
    if bytes.len() < 20 {
        return Err(FormatError::TooSmall);
    }
    let magic = read_u32_le(bytes, 0);
    if magic != BMLGRAPH_MAGIC {
        return Err(FormatError::BadMagic(magic));
    }
    let fragment_id = read_u32_le(bytes, 8);
    let layer_start = read_u32_le(bytes, 12);
    let layer_end = read_u32_le(bytes, 16);
    let (n_ops, o1) = match take_u32(bytes, 20) {
        Err(e) => return Err(e),
        Ok(x) => x,
    };
    let (ops, o2) = match decode_ops_at(bytes, o1, n_ops) {
        Err(e) => return Err(e),
        Ok(x) => x,
    };
    let (n_weights, o3) = match take_u64(bytes, o2) {
        Err(e) => return Err(e),
        Ok(x) => x,
    };
    let (weights, o4) = match take_weights(bytes, o3, n_weights) {
        Err(e) => return Err(e),
        Ok(x) => x,
    };
    let (n_tensors, o5) = match take_u32(bytes, o4) {
        Err(e) => return Err(e),
        Ok(x) => x,
    };
    let (tensors, o6) = match take_tensors(bytes, o5, n_tensors) {
        Err(e) => return Err(e),
        Ok(x) => x,
    };
    let (n_kv_heads, o7) = match take_u32(bytes, o6) {
        Err(e) => return Err(e),
        Ok(x) => x,
    };
    let (head_dim, _) = match take_u32(bytes, o7) {
        Err(e) => return Err(e),
        Ok(x) => x,
    };
    let f = DistributedFragment {
        fragment_id,
        layer_start,
        layer_end,
        ops,
        weights,
        tensors,
        config: empty_model_config(),
        n_kv_heads,
        head_dim,
    };
    assert(f@.config == empty_config());
    Ok(f)
}

// ---------------------------------------------------------------------------
// Header file
// ---------------------------------------------------------------------------

/// Reads the five `u32` counts of a model shape at `off`.
pub open spec fn rd_shape(b: Seq<u8>, off: int, architecture: Seq<char>) -> Result<
    (ModelConfigView, int),
    FormatError,
> {
    match rd32(b, off) {
        Err(e) => Err(e),
        Ok((n_layers, o1)) => match rd32(b, o1) {
            Err(e) => Err(e),
            Ok((n_heads, o2)) => match rd32(b, o2) {
                Err(e) => Err(e),
                Ok((n_embd, o3)) => match rd32(b, o3) {
                    Err(e) => Err(e),
                    Ok((context_length, o4)) => match rd32(b, o4) {
                        Err(e) => Err(e),
                        Ok((vocab_size, o5)) => Ok(
                            (
                                ModelConfigView {
                                    architecture,
                                    n_layers,
                                    n_heads,
                                    n_embd,
                                    context_length,
                                    vocab_size,
                                },
                                o5,
                            ),
                        ),
                    },
                },
            },
        },
    }
}

/// Bytes of the five counts of a model shape.
pub open spec fn shape_bytes(c: ModelConfigView) -> Seq<u8> {
    le32(c.n_layers) + le32(c.n_heads) + le32(c.n_embd) + le32(c.context_length) + le32(
        c.vocab_size,
    )
}

/// Bytes of the header file of `n_fragments` fragments of a model with
/// shape `c`.
pub open spec fn header_bytes(n_fragments: nat, c: ModelConfigView) -> Seq<u8> {
    le32(BMLGRAPH_MAGIC) + le32(BMLGRAPH_VERSION) + le32(n_fragments as u32) + text64_bytes(
        c.architecture,
    ) + shape_bytes(c)
}

/// The model shape and fragment count of a header file, or why it holds
/// none. The version is not checked.
pub open spec fn header_spec(b: Seq<u8>) -> Result<(ModelConfigView, nat), FormatError> {
    if b.len() < 12 {
        Err(FormatError::TooSmall)
    } else if read_le32(b, 0) != BMLGRAPH_MAGIC {
        Err(FormatError::BadMagic(read_le32(b, 0)))
    } else {
        match rd_text64(b, 12) {
            Err(e) => Err(e),
            Ok((architecture, o)) => match rd_shape(b, o, architecture) {
                Err(e) => Err(e),
                Ok((c, _)) => Ok((c, read_le32(b, 8) as nat)),
            },
        }
    }
}

fn push_shape(out: &mut Vec<u8>, c: &ModelConfig)
    ensures
        final(out)@ == old(out)@ + shape_bytes(c@),
{
    push_u32_le(out, c.n_layers);
    push_u32_le(out, c.n_heads);
    push_u32_le(out, c.n_embd);
    push_u32_le(out, c.context_length);
    push_u32_le(out, c.vocab_size);
    assert(out@ =~= old(out)@ + shape_bytes(c@));
}

fn take_shape(bytes: &[u8], off: usize, architecture: String) -> (r: Result<(ModelConfig, usize), FormatError>)
    ensures
        match r {
            Ok((c, o)) => rd_shape(bytes@, off as int, architecture@) == Ok::<
                (ModelConfigView, int),
                FormatError,
            >((c@, o as int)),
            Err(e) => rd_shape(bytes@, off as int, architecture@) == Err::<
                (ModelConfigView, int),
                FormatError,
            >(e),
        },
{
    let (n_layers, o1) = match take_u32(bytes, off) {
        Err(e) => return Err(e),
        Ok(x) => x,
    };
    let (n_heads, o2) = match take_u32(bytes, o1) {
        Err(e) => return Err(e),
        Ok(x) => x,
    };
    let (n_embd, o3) = match take_u32(bytes, o2) {
        Err(e) => return Err(e),
        Ok(x) => x,
    };
    let (context_length, o4) = match take_u32(bytes, o3) {
        Err(e) => return Err(e),
        Ok(x) => x,
    };
    let (vocab_size, o5) = match take_u32(bytes, o4) {
        Err(e) => return Err(e),
        Ok(x) => x,
    };
    Ok((ModelConfig { architecture, n_layers, n_heads, n_embd, context_length, vocab_size }, o5))
}

/// The bytes of the header file of `fragments`: their count and the model
/// shape of the first one (the count is truncated to `u32`).
pub fn encode_header(fragments: &[DistributedFragment]) -> (bytes: Vec<u8>)
    requires
        fragments@.len() > 0,
    ensures
        bytes@ == header_bytes(fragments@.len(), fragments@[0].config@),
{
    let mut bytes: Vec<u8> = Vec::new();
    push_u32_le(&mut bytes, BMLGRAPH_MAGIC);
    push_u32_le(&mut bytes, BMLGRAPH_VERSION);
    #[verifier::truncate]
    let n = fragments.len() as u32;
    push_u32_le(&mut bytes, n);
    let config = &fragments[0].config;
    push_text64(&mut bytes, &config.architecture);
    push_shape(&mut bytes, config);
    assert(bytes@ =~= header_bytes(fragments@.len(), fragments@[0].config@));
    bytes
}

/// Reads a header file: the model shape and the number of fragments.
pub fn decode_header(bytes: &[u8]) -> (r: Result<(ModelConfig, usize), FormatError>)
    ensures
        match r {
            Ok((c, n)) => header_spec(bytes@) == Ok::<(ModelConfigView, nat), FormatError>(
                (c@, n as nat),
            ),
            Err(e) => header_spec(bytes@) == Err::<(ModelConfigView, nat), FormatError>(e),
        },
{
    if bytes.len() < 12 {
        return Err(FormatError::TooSmall);
    }
    let magic = read_u32_le(bytes, 0);
    if magic != BMLGRAPH_MAGIC {
        return Err(FormatError::BadMagic(magic));
    }
    let n_fragments = read_u32_le(bytes, 8);
    let (architecture, o) = match take_text64(bytes, 12) {
        Err(e) => return Err(e),
        Ok(x) => x,
    };
    match take_shape(bytes, o, architecture) {
        Err(e) => Err(e),
        Ok((c, _)) => Ok((c, n_fragments as usize)),
    }
}

// ---------------------------------------------------------------------------
// Wire form
// ---------------------------------------------------------------------------

/// Weights and tensor descriptions, each preceded by its count.
pub open spec fn payload_bytes(ws: Seq<u32>, ts: Seq<TensorMetaView>) -> Seq<u8> {
    le64(ws.len() as u64) + weights_bytes(ws) + le32(ts.len() as u32) + tensors_bytes(ts)
}

/// Bytes of the fixed part of the wire form: ids, model shape and heads.
pub open spec fn wire_head_bytes(f: FragmentView) -> Seq<u8> {
    le32(f.fragment_id) + le32(f.layer_start) + le32(f.layer_end) + text32_bytes(
        f.config.architecture,
    ) + shape_bytes(f.config) + le32(f.n_kv_heads) + le32(f.head_dim)
}

/// Bytes of the wire form of a fragment (its bytecode is not sent).
pub open spec fn wire_bytes(f: FragmentView) -> Seq<u8> {
    wire_head_bytes(f) + payload_bytes(f.weights, f.tensors)
}

/// The weights and tensor descriptions that follow each other at `o`:
/// a `u64` count of weights, the weights, a `u32` count of tensors and
/// the tensors.
pub open spec fn rd_payload(b: Seq<u8>, o: int) -> Result<
    (Seq<u32>, Seq<TensorMetaView>),
    FormatError,
> {
    match rd64(b, o) {
        Err(e) => Err(e),
        Ok((n_weights, o1)) => match rd_weights(b, o1, n_weights as nat) {
            Err(e) => Err(e),
            Ok((weights, o2)) => match rd32(b, o2) {
                Err(e) => Err(e),
                Ok((n_tensors, o3)) => match rd_tensors(b, o3, n_tensors as nat) {
                    Err(e) => Err(e),
                    Ok((tensors, _)) => Ok((weights, tensors)),
                },
            },
        },
    }
}

/// The fragment that wire bytes hold, without bytecode, or why they hold
/// none. Bytes after the last tensor are ignored.
pub open spec fn wire_spec(b: Seq<u8>) -> Result<FragmentView, FormatError> {
    if b.len() < 16 {
        Err(FormatError::TooSmall)
    } else {
        match rd_text32(b, 12) {
            Err(e) => Err(e),
            Ok((architecture, o1)) => match rd_shape(b, o1, architecture) {
                Err(e) => Err(e),
                Ok((config, o2)) => match rd32(b, o2) {
                    Err(e) => Err(e),
                    Ok((n_kv_heads, o3)) => match rd32(b, o3) {
                        Err(e) => Err(e),
                        Ok((head_dim, o4)) => match rd_payload(b, o4) {
                            Err(e) => Err(e),
                            Ok((weights, tensors)) => Ok(
                                FragmentView {
                                    fragment_id: read_le32(b, 0),
                                    layer_start: read_le32(b, 4),
                                    layer_end: read_le32(b, 8),
                                    ops: Seq::empty(),
                                    weights,
                                    tensors,
                                    config,
                                    n_kv_heads,
                                    head_dim,
                                },
                            ),
                        },
                    },
                },
            },
        }
    }
}

/// The wire bytes of `frag`, sent to another node.
pub fn encode_wire(frag: &DistributedFragment) -> (bytes: Vec<u8>)
    ensures
        bytes@ == wire_bytes(frag@),
{
    let mut bytes: Vec<u8> = Vec::new();
    push_u32_le(&mut bytes, frag.fragment_id);
    push_u32_le(&mut bytes, frag.layer_start);
    push_u32_le(&mut bytes, frag.layer_end);
    push_text32(&mut bytes, &frag.config.architecture);
    push_shape(&mut bytes, &frag.config);
    push_u32_le(&mut bytes, frag.n_kv_heads);
    push_u32_le(&mut bytes, frag.head_dim);
    push_u64_le(&mut bytes, frag.weights.len() as u64);
    push_weights(&mut bytes, frag.weights.as_slice());
    #[verifier::truncate]
    let n_tensors = frag.tensors.len() as u32;
    push_u32_le(&mut bytes, n_tensors);
    push_tensors(&mut bytes, frag.tensors.as_slice());
    assert(bytes@ =~= wire_bytes(frag@));
    bytes
}

/// Reads the wire form of a fragment; its bytecode is empty.
pub fn decode_wire(bytes: &[u8]) -> (r: Result<DistributedFragment, FormatError>)
    ensures
        match r {
            Ok(f) => wire_spec(bytes@) == Ok::<FragmentView, FormatError>(f@),
            Err(e) => wire_spec(bytes@) == Err::<FragmentView, FormatError>(e),
        },
{
    if bytes.len() < 16 {
        return Err(FormatError::TooSmall);
    }
    let fragment_id = read_u32_le(bytes, 0);
    let layer_start = read_u32_le(bytes, 4);
    let layer_end = read_u32_le(bytes, 8);
    let (architecture, o1) = match take_text32(bytes, 12) {
        Err(e) => return Err(e),
        Ok(x) => x,
    };
    let (config, o2) = match take_shape(bytes, o1, architecture) {
        Err(e) => return Err(e),
        Ok(x) => x,
    };
    let (n_kv_heads, o3) = match take_u32(bytes, o2) {
        Err(e) => return Err(e),
        Ok(x) => x,
    };
    let (head_dim, o4) = match take_u32(bytes, o3) {
        Err(e) => return Err(e),
        Ok(x) => x,
    };
    let (n_weights, o5) = match take_u64(bytes, o4) {
        Err(e) => return Err(e),
        Ok(x) => x,
    };
    let (weights, o6) = match take_weights(bytes, o5, n_weights) {
        Err(e) => return Err(e),
        Ok(x) => x,
    };
    let (n_tensors, o7) = match take_u32(bytes, o6) {
        Err(e) => return Err(e),
        Ok(x) => x,
    };
    let (tensors, _) = match take_tensors(bytes, o7, n_tensors) {
        Err(e) => return Err(e),
        Ok(x) => x,
    };
    let f = DistributedFragment {
        fragment_id,
        layer_start,
        layer_end,
        ops: Vec::new(),
        weights,
        tensors,
        config,
        n_kv_heads,
        head_dim,
    };
    assert(f@.ops =~= Seq::<RpnOp>::empty());
    Ok(f)
}

// ---------------------------------------------------------------------------
// Reading back what was written
// ---------------------------------------------------------------------------

/// `b` holds `x` at `o`.
#[verifier::opaque]
pub open spec fn holds_at(b: Seq<u8>, o: int, x: Seq<u8>) -> bool {
    0 <= o && o + x.len() <= b.len() && b.subrange(o, o + x.len()) == x
}

#[verifier::spinoff_prover]
proof fn lemma_split(b: Seq<u8>, o: int, x: Seq<u8>, y: Seq<u8>)
    requires
        holds_at(b, o, x + y),
    ensures
        holds_at(b, o, x),
        holds_at(b, o + x.len(), y),
{
    reveal(holds_at);
    assert forall|i: int| 0 <= i < x.len() + y.len() implies b[o + i] == (x + y)[i] by {
        assert(b.subrange(o, o + x.len() + y.len())[i] == b[o + i]);
    }
    assert(b.subrange(o, o + x.len()) =~= x);
    assert(b.subrange(o + x.len(), o + x.len() + y.len()) =~= y) by {
        assert forall|i: int| 0 <= i < y.len() implies b[o + x.len() + i] == y[i] by {
            assert((x + y)[x.len() + i] == y[i]);
        }
    }
}

#[verifier::spinoff_prover]
proof fn lemma_rd32_at(b: Seq<u8>, o: int, x: u32)
    requires
        holds_at(b, o, le32(x)),
    ensures
        rd32(b, o) == Ok::<(u32, int), FormatError>((x, o + 4)),
{
    reveal(holds_at);
    let pre = b.subrange(0, o);
    let post = b.subrange(o + 4, b.len() as int);
    assert(b =~= pre + le32(x) + post);
    lemma_le32_roundtrip(x, pre, post);
}

#[verifier::spinoff_prover]
proof fn lemma_rd64_at(b: Seq<u8>, o: int, x: u64)
    requires
        holds_at(b, o, le64(x)),
    ensures
        rd64(b, o) == Ok::<(u64, int), FormatError>((x, o + 8)),
{
    reveal(holds_at);
    let pre = b.subrange(0, o);
    let post = b.subrange(o + 8, b.len() as int);
    assert(b =~= pre + le64(x) + post);
    lemma_le64_roundtrip(x, pre, post);
}

#[verifier::spinoff_prover]
proof fn lemma_ops_at(b: Seq<u8>, o: int, ops: Seq<RpnOp>)
    requires
        holds_at(b, o, encode_ops(ops)),
    ensures
        decode_ops(b, o, ops.len()) == Ok::<(Seq<RpnOp>, int), FormatError>(
            (ops, o + encode_ops(ops).len()),
        ),
{
    reveal(holds_at);
    let e = encode_ops(ops);
    let pre = b.subrange(0, o);
    let post = b.subrange(o + e.len(), b.len() as int);
    assert(b =~= pre + e + post);
    lemma_decode_encode_ops(ops, pre, post);
}

#[verifier::spinoff_prover]
proof fn lemma_text32_at(b: Seq<u8>, o: int, s: Seq<char>)
    requires
        holds_at(b, o, text32_bytes(s)),
        encode_utf8(s).len() <= u32::MAX,
    ensures
        rd_text32(b, o) == Ok::<(Seq<char>, int), FormatError>((s, o + text32_bytes(s).len())),
{
    broadcast use vstd::utf8::encode_utf8_valid_utf8, vstd::utf8::encode_utf8_decode_utf8;
    reveal(holds_at);
    let e = encode_utf8(s);
    lemma_split(b, o, le32(e.len() as u32), e);
    lemma_rd32_at(b, o, e.len() as u32);
}

#[verifier::spinoff_prover]
proof fn lemma_text64_at(b: Seq<u8>, o: int, s: Seq<char>)
    requires
        holds_at(b, o, text64_bytes(s)),
        encode_utf8(s).len() <= u64::MAX,
    ensures
        rd_text64(b, o) == Ok::<(Seq<char>, int), FormatError>((s, o + text64_bytes(s).len())),
{
    broadcast use vstd::utf8::encode_utf8_valid_utf8, vstd::utf8::encode_utf8_decode_utf8;
    reveal(holds_at);
    let e = encode_utf8(s);
    lemma_split(b, o, le64(e.len() as u64), e);
    lemma_rd64_at(b, o, e.len() as u64);
}

#[verifier::spinoff_prover]
proof fn lemma_weights_at(b: Seq<u8>, o: int, ws: Seq<u32>)
    requires
        holds_at(b, o, weights_bytes(ws)),
    ensures
        rd_weights(b, o, ws.len()) == Ok::<(Seq<u32>, int), FormatError>(
            (ws, o + weights_bytes(ws).len()),
        ),
    decreases ws.len(),
{
    if ws.len() > 0 {
        let init = ws.drop_last();
        let last = ws.last();
        lemma_split(b, o, weights_bytes(init), le32(last));
        lemma_weights_at(b, o, init);
        lemma_rd32_at(b, o + weights_bytes(init).len(), last);
        assert(init.push(last) =~= ws);
    } else {
        assert(ws =~= Seq::<u32>::empty());
    }
}

#[verifier::rlimit(40)]
#[verifier::spinoff_prover]
proof fn lemma_tensor_at(b: Seq<u8>, o: int, t: TensorMetaView)
    requires
        holds_at(b, o, tensor_bytes(t)),
        encode_utf8(t.name).len() <= u32::MAX,
    ensures
        rd_tensor(b, o) == Ok::<(TensorMetaView, int), FormatError>(
            (t, o + tensor_bytes(t).len()),
        ),
{
    let a = text32_bytes(t.name);
    let a2 = a + le64(t.offset);
    let a3 = a2 + le32(t.n_rows);
    lemma_split(b, o, a3, le32(t.n_cols));
    lemma_split(b, o, a2, le32(t.n_rows));
    lemma_split(b, o, a, le64(t.offset));
    lemma_text32_at(b, o, t.name);
    lemma_rd64_at(b, o + a.len(), t.offset);
    lemma_rd32_at(b, o + a2.len(), t.n_rows);
    lemma_rd32_at(b, o + a3.len(), t.n_cols);
}

/// Every tensor name fits a `u32` byte length.
pub open spec fn names_fit(ts: Seq<TensorMetaView>) -> bool {
    forall|i: int| 0 <= i < ts.len() ==> encode_utf8((#[trigger] ts[i]).name).len() <= u32::MAX
}

#[verifier::spinoff_prover]
proof fn lemma_tensors_at(b: Seq<u8>, o: int, ts: Seq<TensorMetaView>)
    requires
        holds_at(b, o, tensors_bytes(ts)),
        names_fit(ts),
    ensures
        rd_tensors(b, o, ts.len()) == Ok::<(Seq<TensorMetaView>, int), FormatError>(
            (ts, o + tensors_bytes(ts).len()),
        ),
    decreases ts.len(),
{
    if ts.len() > 0 {
        let init = ts.drop_last();
        let last = ts.last();
        assert(names_fit(init));
        assert(encode_utf8(ts[ts.len() - 1].name).len() <= u32::MAX);
        lemma_split(b, o, tensors_bytes(init), tensor_bytes(last));
        lemma_tensors_at(b, o, init);
        lemma_tensor_at(b, o + tensors_bytes(init).len(), last);
        assert(init.push(last) =~= ts);
    } else {
        assert(ts =~= Seq::<TensorMetaView>::empty());
    }
}

#[verifier::rlimit(40)]
#[verifier::spinoff_prover]
proof fn lemma_shape_at(b: Seq<u8>, o: int, c: ModelConfigView)
    requires
        holds_at(b, o, shape_bytes(c)),
    ensures
        rd_shape(b, o, c.architecture) == Ok::<(ModelConfigView, int), FormatError>((c, o + 20)),
{
    let a1 = le32(c.n_layers);
    let a2 = a1 + le32(c.n_heads);
    let a3 = a2 + le32(c.n_embd);
    let a4 = a3 + le32(c.context_length);
    lemma_split(b, o, a4, le32(c.vocab_size));
    lemma_split(b, o, a3, le32(c.context_length));
    lemma_split(b, o, a2, le32(c.n_embd));
    lemma_split(b, o, a1, le32(c.n_heads));
    lemma_rd32_at(b, o, c.n_layers);
    lemma_rd32_at(b, o + 4, c.n_heads);
    lemma_rd32_at(b, o + 8, c.n_embd);
    lemma_rd32_at(b, o + 12, c.context_length);
    lemma_rd32_at(b, o + 16, c.vocab_size);
}

#[verifier::spinoff_prover]
proof fn lemma_whole(x: Seq<u8>, trailing: Seq<u8>)
    ensures
        holds_at(x + trailing, 0, x),
{
    reveal(holds_at);
    assert((x + trailing).subrange(0, x.len() as int) =~= x);
}

/// Reading the file of a fragment gives the fragment back, with an empty
/// model shape, provided its counts and tensor names fit their fields.
#[verifier::rlimit(80)]
#[verifier::spinoff_prover]
pub proof fn law_fragment_file_roundtrip(f: FragmentView, trailing: Seq<u8>)
    requires
        f.ops.len() <= u32::MAX,
        f.weights.len() <= u64::MAX,
        f.tensors.len() <= u32::MAX,
        names_fit(f.tensors),
    ensures
        fragment_file_spec(fragment_file_bytes(f) + trailing) == Ok::<FragmentView, FormatError>(
            FragmentView {
                fragment_id: f.fragment_id,
                layer_start: f.layer_start,
                layer_end: f.layer_end,
                ops: f.ops,
                weights: f.weights,
                tensors: f.tensors,
                config: empty_config(),
                n_kv_heads: f.n_kv_heads,
                head_dim: f.head_dim,
            },
        ),
{
    let b = fragment_file_bytes(f) + trailing;
    let h1 = le32(BMLGRAPH_MAGIC);
    let h2 = h1 + le32(BMLGRAPH_VERSION);
    let h3 = h2 + le32(f.fragment_id);
    let h4 = h3 + le32(f.layer_start);
    let h5 = h4 + le32(f.layer_end);
    let p1 = h5 + le32(f.ops.len() as u32);
    let p2 = p1 + encode_ops(f.ops);
    let p3 = p2 + le64(f.weights.len() as u64);
    let p4 = p3 + weights_bytes(f.weights);
    let p5 = p4 + le32(f.tensors.len() as u32);
    let p6 = p5 + tensors_bytes(f.tensors);
    let p7 = p6 + le32(f.n_kv_heads);
    let p8 = p7 + le32(f.head_dim);
    lemma_whole(p8, trailing);
    lemma_split(b, 0, p7, le32(f.head_dim));
    lemma_split(b, 0, p6, le32(f.n_kv_heads));
    lemma_split(b, 0, p5, tensors_bytes(f.tensors));
    lemma_split(b, 0, p4, le32(f.tensors.len() as u32));
    lemma_split(b, 0, p3, weights_bytes(f.weights));
    lemma_split(b, 0, p2, le64(f.weights.len() as u64));
    lemma_split(b, 0, p1, encode_ops(f.ops));
    lemma_split(b, 0, h5, le32(f.ops.len() as u32));
    lemma_split(b, 0, h4, le32(f.layer_end));
    lemma_split(b, 0, h3, le32(f.layer_start));
    lemma_split(b, 0, h2, le32(f.fragment_id));
    lemma_split(b, 0, h1, le32(BMLGRAPH_VERSION));
    lemma_rd32_at(b, 0, BMLGRAPH_MAGIC);
    lemma_rd32_at(b, 8, f.fragment_id);
    lemma_rd32_at(b, 12, f.layer_start);
    lemma_rd32_at(b, 16, f.layer_end);
    lemma_rd32_at(b, 20, f.ops.len() as u32);
    lemma_ops_at(b, p1.len() as int, f.ops);
    lemma_rd64_at(b, p2.len() as int, f.weights.len() as u64);
    lemma_weights_at(b, p3.len() as int, f.weights);
    lemma_rd32_at(b, p4.len() as int, f.tensors.len() as u32);
    lemma_tensors_at(b, p5.len() as int, f.tensors);
    lemma_rd32_at(b, p6.len() as int, f.n_kv_heads);
    lemma_rd32_at(b, p7.len() as int, f.head_dim);
}

/// Reading a header file gives back the model shape and the fragment
/// count, provided they fit their fields.
#[verifier::spinoff_prover]
pub proof fn law_header_roundtrip(n_fragments: nat, c: ModelConfigView, trailing: Seq<u8>)
    requires
        n_fragments <= u32::MAX,
        encode_utf8(c.architecture).len() <= u64::MAX,
    ensures
        header_spec(header_bytes(n_fragments, c) + trailing) == Ok::<
            (ModelConfigView, nat),
            FormatError,
        >((c, n_fragments)),
{
    let b = header_bytes(n_fragments, c) + trailing;
    let h1 = le32(BMLGRAPH_MAGIC);
    let h2 = h1 + le32(BMLGRAPH_VERSION);
    let h3 = h2 + le32(n_fragments as u32);
    let h4 = h3 + text64_bytes(c.architecture);
    let h5 = h4 + shape_bytes(c);
    lemma_whole(h5, trailing);
    lemma_split(b, 0, h4, shape_bytes(c));
    lemma_split(b, 0, h3, text64_bytes(c.architecture));
    lemma_split(b, 0, h2, le32(n_fragments as u32));
    lemma_split(b, 0, h1, le32(BMLGRAPH_VERSION));
    lemma_rd32_at(b, 0, BMLGRAPH_MAGIC);
    lemma_rd32_at(b, 8, n_fragments as u32);
    lemma_text64_at(b, 12, c.architecture);
    lemma_shape_at(b, h4.len() as int, c);
}

#[verifier::rlimit(40)]
#[verifier::spinoff_prover]
proof fn lemma_payload_at(b: Seq<u8>, o: int, ws: Seq<u32>, ts: Seq<TensorMetaView>)
    requires
        holds_at(b, o, payload_bytes(ws, ts)),
        ws.len() <= u64::MAX,
        ts.len() <= u32::MAX,
        names_fit(ts),
    ensures
        rd_payload(b, o) == Ok::<(Seq<u32>, Seq<TensorMetaView>), FormatError>((ws, ts)),
{
    let a1 = le64(ws.len() as u64);
    let a2 = a1 + weights_bytes(ws);
    let a3 = a2 + le32(ts.len() as u32);
    lemma_split(b, o, a3, tensors_bytes(ts));
    lemma_split(b, o, a2, le32(ts.len() as u32));
    lemma_split(b, o, a1, weights_bytes(ws));
    lemma_rd64_at(b, o, ws.len() as u64);
    lemma_weights_at(b, o + 8, ws);
    lemma_rd32_at(b, o + a2.len(), ts.len() as u32);
    lemma_tensors_at(b, o + a3.len(), ts);
}

#[verifier::rlimit(40)]
#[verifier::spinoff_prover]
proof fn lemma_wire_head_at(b: Seq<u8>, f: FragmentView)
    requires
        holds_at(b, 0, wire_head_bytes(f)),
        encode_utf8(f.config.architecture).len() <= u32::MAX,
    ensures
        b.len() >= 16,
        read_le32(b, 0) == f.fragment_id,
        read_le32(b, 4) == f.layer_start,
        read_le32(b, 8) == f.layer_end,
        rd_text32(b, 12) == Ok::<(Seq<char>, int), FormatError>(
            (f.config.architecture, (12 + text32_bytes(f.config.architecture).len()) as int),
        ),
        rd_shape(b, (12 + text32_bytes(f.config.architecture).len()) as int, f.config.architecture) == Ok::<
            (ModelConfigView, int),
            FormatError,
        >((f.config, (32 + text32_bytes(f.config.architecture).len()) as int)),
        rd32(b, (32 + text32_bytes(f.config.architecture).len()) as int) == Ok::<(u32, int), FormatError>(
            (f.n_kv_heads, (36 + text32_bytes(f.config.architecture).len()) as int),
        ),
        rd32(b, (36 + text32_bytes(f.config.architecture).len()) as int) == Ok::<(u32, int), FormatError>(
            (f.head_dim, (40 + text32_bytes(f.config.architecture).len()) as int),
        ),
        wire_head_bytes(f).len() == 40 + text32_bytes(f.config.architecture).len(),
{
    let h1 = le32(f.fragment_id);
    let h2 = h1 + le32(f.layer_start);
    let h3 = h2 + le32(f.layer_end);
    let p1 = h3 + text32_bytes(f.config.architecture);
    let p2 = p1 + shape_bytes(f.config);
    let p3 = p2 + le32(f.n_kv_heads);
    lemma_split(b, 0, p3, le32(f.head_dim));
    lemma_split(b, 0, p2, le32(f.n_kv_heads));
    lemma_split(b, 0, p1, shape_bytes(f.config));
    lemma_split(b, 0, h3, text32_bytes(f.config.architecture));
    lemma_split(b, 0, h2, le32(f.layer_end));
    lemma_split(b, 0, h1, le32(f.layer_start));
    lemma_rd32_at(b, 0, f.fragment_id);
    lemma_rd32_at(b, 4, f.layer_start);
    lemma_rd32_at(b, 8, f.layer_end);
    lemma_text32_at(b, 12, f.config.architecture);
    lemma_shape_at(b, p1.len() as int, f.config);
    lemma_rd32_at(b, p2.len() as int, f.n_kv_heads);
    lemma_rd32_at(b, p3.len() as int, f.head_dim);
    reveal(holds_at);
}

/// Reading the wire form of a fragment gives the fragment back without
/// its bytecode, provided its counts and texts fit their fields.
#[verifier::spinoff_prover]
pub proof fn law_wire_roundtrip(f: FragmentView, trailing: Seq<u8>)
    requires
        encode_utf8(f.config.architecture).len() <= u32::MAX,
        f.weights.len() <= u64::MAX,
        f.tensors.len() <= u32::MAX,
        names_fit(f.tensors),
    ensures
        wire_spec(wire_bytes(f) + trailing) == Ok::<FragmentView, FormatError>(
            FragmentView {
                fragment_id: f.fragment_id,
                layer_start: f.layer_start,
                layer_end: f.layer_end,
                ops: Seq::empty(),
                weights: f.weights,
                tensors: f.tensors,
                config: f.config,
                n_kv_heads: f.n_kv_heads,
                head_dim: f.head_dim,
            },
        ),
{
    let b = wire_bytes(f) + trailing;
    let head = wire_head_bytes(f);
    let tail = payload_bytes(f.weights, f.tensors);
    lemma_whole(head + tail, trailing);
    lemma_split(b, 0, head, tail);
    lemma_wire_head_at(b, f);
    lemma_payload_at(b, head.len() as int, f.weights, f.tensors);
}

// ---------------------------------------------------------------------------
// Cutting a model into fragments
// ---------------------------------------------------------------------------

/// `ranges` cuts the layers `0..n_layers` into consecutive non-empty
/// ranges of `per_fragment` layers, the last one possibly shorter.
pub open spec fn is_layer_cut(ranges: Seq<(u32, u32)>, n_layers: nat, per_fragment: nat) -> bool {
    &&& (n_layers == 0 <==> ranges.len() == 0)
    &&& ranges.len() > 0 ==> ranges[0].0 == 0 && ranges.last().1 == n_layers
    &&& forall|i: int|
        0 <= i < ranges.len() ==> {
            let (s, e) = #[trigger] ranges[i];
            &&& s < e <= n_layers
            &&& e - s == per_fragment || (e == n_layers && e - s < per_fragment)
        }
    &&& forall|i: int| 0 <= i < ranges.len() - 1 ==> (#[trigger] ranges[i]).1 == ranges[i + 1].0
}

#[verifier::spinoff_prover]
proof fn lemma_last_start_fits(layer: u32, n_layers: u32, per: u32)
    requires
        per > 0,
        layer < n_layers,
        layer % per == 0,
        (n_layers - 1) / (per as int) * per + per <= u32::MAX,
    ensures
        layer + per <= u32::MAX,
{
    let l = layer as int;
    let p = per as int;
    let m = (n_layers - 1) as int;
    assert(l / p <= m / p) by (nonlinear_arith)
        requires
            p > 0,
            0 <= l <= m,
    ;
    assert(l == l / p * p) by (nonlinear_arith)
        requires
            p > 0,
            l % p == 0,
    ;
    assert(l / p * p <= m / p * p) by (nonlinear_arith)
        requires
            p > 0,
            l / p <= m / p,
    ;
}

#[verifier::spinoff_prover]
proof fn lemma_next_multiple(layer: u32, per: u32)
    requires
        per > 0,
        layer % per == 0,
        layer + per <= u32::MAX,
    ensures
        ((layer + per) as u32) % per == 0,
{
    assert((layer + per) % (per as int) == 0) by (nonlinear_arith)
        requires
            per > 0,
            layer % per == 0,
    ;
}

/// The layer ranges of the fragments of a model with `n_layers` layers,
/// `layers_per_fragment` layers each (the last one possibly shorter).
pub fn layer_ranges(n_layers: u32, layers_per_fragment: u32) -> (ranges: Vec<(u32, u32)>)
    requires
        layers_per_fragment > 0,
        n_layers == 0 || (n_layers - 1) / (layers_per_fragment as int) * layers_per_fragment
            + layers_per_fragment <= u32::MAX,
    ensures
        is_layer_cut(ranges@, n_layers as nat, layers_per_fragment as nat),
{
    let mut ranges: Vec<(u32, u32)> = Vec::new();
    let mut layer: u32 = 0;
    while layer < n_layers
        invariant
            layers_per_fragment > 0,
            n_layers == 0 || (n_layers - 1) / (layers_per_fragment as int) * layers_per_fragment
                + layers_per_fragment <= u32::MAX,
            layer <= n_layers,
            layer < n_layers ==> layer % layers_per_fragment == 0,
            ranges@.len() == 0 <==> layer == 0,
            ranges@.len() > 0 ==> ranges@[0].0 == 0 && ranges@.last().1 == layer,
            forall|i: int|
                0 <= i < ranges@.len() ==> {
                    let (s, e) = #[trigger] ranges@[i];
                    &&& s < e <= n_layers
                    &&& e - s == layers_per_fragment || (e == n_layers && e - s
                        < layers_per_fragment)
                },
            forall|i: int|
                0 <= i < ranges@.len() - 1 ==> (#[trigger] ranges@[i]).1 == ranges@[i + 1].0,
        decreases n_layers - layer,
    {
        proof {
            lemma_last_start_fits(layer, n_layers, layers_per_fragment);
            lemma_next_multiple(layer, layers_per_fragment);
        }
        let next = layer + layers_per_fragment;
        let end = if next < n_layers {
            next
        } else {
            n_layers
        };
        let ghost before = ranges@;
        ranges.push((layer, end));
        proof {
            if before.len() > 0 {
                assert(ranges@[before.len() - 1] == before.last());
            }
        }
        layer = end;
        if layer < n_layers {
            assert(layer % layers_per_fragment == 0);
        }
    }
    ranges
}

/// Names of the tensors that a fragment carries for one layer: the nine
/// weights of transformer layer `layer`, or, for the final fragment, the
/// output norm and the token embedding.
pub open spec fn layer_tensor_names(layer: u32, is_final: bool) -> Seq<Seq<char>> {
    if is_final {
        seq!["output_norm.weight"@, "token_embd.weight"@]
    } else {
        seq![
            layer_op_name(layer, ".attn_norm.weight"@),
            layer_op_name(layer, ".attn_q.weight"@),
            layer_op_name(layer, ".attn_k.weight"@),
            layer_op_name(layer, ".attn_v.weight"@),
            layer_op_name(layer, ".attn_output.weight"@),
            layer_op_name(layer, ".ffn_norm.weight"@),
            layer_op_name(layer, ".ffn_gate.weight"@),
            layer_op_name(layer, ".ffn_up.weight"@),
            layer_op_name(layer, ".ffn_down.weight"@),
        ]
    }
}

/// Names of the tensors of the layers `start..end`, layer after layer.
pub open spec fn range_tensor_names(start: u32, end: u32, is_final: bool) -> Seq<Seq<char>>
    decreases end - start,
{
    if end <= start {
        Seq::empty()
    } else {
        range_tensor_names(start, (end - 1) as u32, is_final) + layer_tensor_names(
            (end - 1) as u32,
            is_final,
        )
    }
}

/// The tensors a fragment loads for layer `layer`: the nine distinct
/// weights `blk.<layer>.attn_norm`, `attn_q`, `attn_k`, `attn_v`,
/// `attn_output`, `ffn_norm`, `ffn_gate`, `ffn_up`, `ffn_down` (each
/// `.weight`), each exactly once, in that order.
pub proof fn law_layer_loads_nine_distinct_tensors(layer: u32)
    requires
        layer < u32::MAX,
    ensures
        range_tensor_names(layer, (layer + 1) as u32, false) == seq![
            "blk."@ + decimal(layer as nat) + ".attn_norm.weight"@,
            "blk."@ + decimal(layer as nat) + ".attn_q.weight"@,
            "blk."@ + decimal(layer as nat) + ".attn_k.weight"@,
            "blk."@ + decimal(layer as nat) + ".attn_v.weight"@,
            "blk."@ + decimal(layer as nat) + ".attn_output.weight"@,
            "blk."@ + decimal(layer as nat) + ".ffn_norm.weight"@,
            "blk."@ + decimal(layer as nat) + ".ffn_gate.weight"@,
            "blk."@ + decimal(layer as nat) + ".ffn_up.weight"@,
            "blk."@ + decimal(layer as nat) + ".ffn_down.weight"@,
        ],
        forall|i: int, j: int|
            0 <= i < j < 9 ==> #[trigger] range_tensor_names(layer, (layer + 1) as u32, false)[i]
                != #[trigger] range_tensor_names(layer, (layer + 1) as u32, false)[j],
{
    let n = range_tensor_names(layer, (layer + 1) as u32, false);
    assert(range_tensor_names(layer, layer, false) =~= Seq::<Seq<char>>::empty());
    assert(n =~= layer_tensor_names(layer, false));
    let pre = "blk."@ + decimal(layer as nat);
    let pl = pre.len() as int;
    reveal_strlit(".attn_norm.weight");
    reveal_strlit(".attn_q.weight");
    reveal_strlit(".attn_k.weight");
    reveal_strlit(".attn_v.weight");
    reveal_strlit(".attn_output.weight");
    reveal_strlit(".ffn_norm.weight");
    reveal_strlit(".ffn_gate.weight");
    reveal_strlit(".ffn_up.weight");
    reveal_strlit(".ffn_down.weight");
    assert(n[0] == pre + ".attn_norm.weight"@);
    assert(n[0].len() == pl + 17 && n[0][pl + 5] == '_' && n[0][pl + 6] == 'n');
    assert(n[1] == pre + ".attn_q.weight"@);
    assert(n[1].len() == pl + 14 && n[1][pl + 5] == '_' && n[1][pl + 6] == 'q');
    assert(n[2] == pre + ".attn_k.weight"@);
    assert(n[2].len() == pl + 14 && n[2][pl + 5] == '_' && n[2][pl + 6] == 'k');
    assert(n[3] == pre + ".attn_v.weight"@);
    assert(n[3].len() == pl + 14 && n[3][pl + 5] == '_' && n[3][pl + 6] == 'v');
    assert(n[4] == pre + ".attn_output.weight"@);
    assert(n[4].len() == pl + 19 && n[4][pl + 5] == '_' && n[4][pl + 6] == 'o');
    assert(n[5] == pre + ".ffn_norm.weight"@);
    assert(n[5].len() == pl + 16 && n[5][pl + 5] == 'n' && n[5][pl + 6] == 'o');
    assert(n[6] == pre + ".ffn_gate.weight"@);
    assert(n[6].len() == pl + 16 && n[6][pl + 5] == 'g' && n[6][pl + 6] == 'a');
    assert(n[7] == pre + ".ffn_up.weight"@);
    assert(n[7].len() == pl + 14 && n[7][pl + 5] == 'u' && n[7][pl + 6] == 'p');
    assert(n[8] == pre + ".ffn_down.weight"@);
    assert(n[8].len() == pl + 16 && n[8][pl + 5] == 'd' && n[8][pl + 6] == 'o');
    assert forall|i: int, j: int| 0 <= i < j < 9 implies #[trigger] n[i] != #[trigger] n[j] by {
        if n[i] == n[j] {
            assert(n[i].len() == n[j].len() && n[i][pl + 5] == n[j][pl + 5] && n[i][pl + 6] == n[j][pl + 6]);
        }
    }
}

/// The names of a range of layers are those of each layer, layer after
/// layer: the nine names of layer `l` come at `9 * (l - start)`.
pub proof fn law_layer_range_names(start: u32, end: u32, l: u32)
    requires
        start <= l < end,
    ensures
        range_tensor_names(start, end, false).len() == 9 * (end - start),
        range_tensor_names(start, end, false).subrange(9 * (l - start), 9 * (l - start) + 9)
            == range_tensor_names(l, (l + 1) as u32, false),
    decreases end - start,
{
    lemma_range_names_len(start, end);
    assert(range_tensor_names(l, l, false) =~= Seq::<Seq<char>>::empty());
    assert(range_tensor_names(l, (l + 1) as u32, false) =~= layer_tensor_names(l, false));
    let r = range_tensor_names(start, end, false);
    let e1 = (end - 1) as u32;
    if l == e1 {
        lemma_range_names_len(start, e1);
        assert(r.subrange(9 * (l - start), 9 * (l - start) + 9) =~= layer_tensor_names(l, false));
    } else {
        law_layer_range_names(start, e1, l);
        lemma_range_names_len(start, e1);
        assert(r.subrange(9 * (l - start), 9 * (l - start) + 9) =~= range_tensor_names(start, e1, false).subrange(
            9 * (l - start),
            9 * (l - start) + 9,
        ));
    }
}

proof fn lemma_range_names_len(start: u32, end: u32)
    ensures
        start <= end ==> range_tensor_names(start, end, false).len() == 9 * (end - start),
    decreases end - start,
{
    if start < end {
        lemma_range_names_len(start, (end - 1) as u32);
    }
}

fn push_name(names: &mut Vec<String>, layer: u32, suffix: &str)
    ensures
        token_views(final(names)@) == token_views(old(names)@).push(layer_op_name(layer, suffix@)),
{
    let ghost before = names@;
    names.push(layer_name(layer, suffix));
    assert(token_views(names@) =~= token_views(before).push(layer_op_name(layer, suffix@)));
}

fn push_str(names: &mut Vec<String>, s: &str)
    ensures
        token_views(final(names)@) == token_views(old(names)@).push(s@),
{
    let ghost before = names@;
    names.push(s.to_owned());
    assert(token_views(names@) =~= token_views(before).push(s@));
}

/// Names of the tensors that the fragment of layers `layer_start..layer_end`
/// carries, in the order they are loaded.
pub fn tensor_names(layer_start: u32, layer_end: u32, is_final: bool) -> (names: Vec<String>)
    ensures
        token_views(names@) == range_tensor_names(layer_start, layer_end, is_final),
{
    let mut names: Vec<String> = Vec::new();
    let mut layer = layer_start;
    assert(token_views(names@) =~= range_tensor_names(layer_start, layer_start, is_final));
    while layer < layer_end
        invariant
            layer_start <= layer <= layer_end || (layer == layer_start && layer_end <= layer_start),
            token_views(names@) == range_tensor_names(layer_start, layer, is_final),
        decreases layer_end - layer,
    {
        let ghost before = token_views(names@);
        if is_final {
            push_str(&mut names, "output_norm.weight");
            push_str(&mut names, "token_embd.weight");
        } else {
            push_name(&mut names, layer, ".attn_norm.weight");
            push_name(&mut names, layer, ".attn_q.weight");
            push_name(&mut names, layer, ".attn_k.weight");
            push_name(&mut names, layer, ".attn_v.weight");
            push_name(&mut names, layer, ".attn_output.weight");
            push_name(&mut names, layer, ".ffn_norm.weight");
            push_name(&mut names, layer, ".ffn_gate.weight");
            push_name(&mut names, layer, ".ffn_up.weight");
            push_name(&mut names, layer, ".ffn_down.weight");
        }
        assert(token_views(names@) =~= before + layer_tensor_names(layer, is_final));
        layer = layer + 1;
    }
    if layer_end <= layer_start {
        assert(range_tensor_names(layer_start, layer_end, is_final) =~= Seq::<Seq<char>>::empty());
        assert(token_views(names@) =~= Seq::<Seq<char>>::empty());
    }
    names
}

/// Rows and columns recorded for a tensor of `n_values` values: its first
/// two dimensions, its only dimension and one column, or `n_values` rows
/// and one column when no dimension is known (each narrowed to `u32`).
pub open spec fn tensor_shape(dims: Option<Seq<u64>>, n_values: nat) -> (u32, u32) {
    match dims {
        Some(d) => if d.len() >= 2 {
            (d[0] as u32, d[1] as u32)
        } else if d.len() == 1 {
            (d[0] as u32, 1u32)
        } else {
            (n_values as u32, 1u32)
        },
        None => (n_values as u32, 1u32),
    }
}

/// Appends the values of tensor `name` to the fragment's weights and
/// records where they start and the tensor's shape (`dims`, when known).
pub fn append_tensor(
    weights: &mut Vec<u32>,
    tensors: &mut Vec<TensorMeta>,
    name: &str,
    values: &[u32],
    dims: Option<&[u64]>,
)
    ensures
        final(weights)@ == old(weights)@ + values@,
        tensor_views(final(tensors)@) == tensor_views(old(tensors)@).push(
            TensorMetaView {
                name: name@,
                offset: old(weights)@.len() as u64,
                n_rows: tensor_shape(
                    match dims {
                        Some(d) => Some(d@),
                        None => None,
                    },
                    values@.len(),
                ).0,
                n_cols: tensor_shape(
                    match dims {
                        Some(d) => Some(d@),
                        None => None,
                    },
                    values@.len(),
                ).1,
            },
        ),
{
    #[verifier::truncate]
    let n_values = values.len() as u32;
    let (n_rows, n_cols) = match dims {
        Some(d) => if d.len() >= 2 {
            #[verifier::truncate]
            let r = d[0] as u32;
            #[verifier::truncate]
            let c = d[1] as u32;
            (r, c)
        } else if d.len() == 1 {
            #[verifier::truncate]
            let r = d[0] as u32;
            (r, 1u32)
        } else {
            (n_values, 1u32)
        },
        None => (n_values, 1u32),
    };
    let offset = weights.len() as u64;
    let mut i: usize = 0;
    while i < values.len()
        invariant
            i <= values@.len(),
            weights@ == old(weights)@ + values@.subrange(0, i as int),
        decreases values@.len() - i,
    {
        weights.push(values[i]);
        assert(values@.subrange(0, i + 1) =~= values@.subrange(0, i as int).push(values@[i as int]));
        i += 1;
    }
    assert(values@.subrange(0, i as int) =~= values@);
    let ghost before = tensors@;
    tensors.push(TensorMeta { name: name.to_owned(), offset, n_rows, n_cols });
    assert(tensor_views(tensors@) =~= tensor_views(before).push(tensors@.last()@));
}

/// The fragment of layers `layer_start..layer_end` with its loaded
/// weights and tensors; its bytecode is a single `Var(0)` placeholder (the
/// worker runs the layers from the weights) and its id is `layer_end` for
/// the final fragment and `layer_start` otherwise.
pub fn layer_fragment(
    layer_start: u32,
    layer_end: u32,
    is_final: bool,
    weights: Vec<u32>,
    tensors: Vec<TensorMeta>,
    config: &ModelConfig,
    n_kv_heads: u32,
    head_dim: u32,
) -> (f: DistributedFragment)
    ensures
        f@ == (FragmentView {
            fragment_id: if is_final {
                layer_end
            } else {
                layer_start
            },
            layer_start,
            layer_end,
            ops: seq![RpnOp::Var(0)],
            weights: weights@,
            tensors: tensor_views(tensors@),
            config: config@,
            n_kv_heads,
            head_dim,
        }),
{
    let mut ops: Vec<RpnOp> = Vec::new();
    ops.push(RpnOp::Var(0));
    let c = ModelConfig {
        architecture: config.architecture.clone(),
        n_layers: config.n_layers,
        n_heads: config.n_heads,
        n_embd: config.n_embd,
        context_length: config.context_length,
        vocab_size: config.vocab_size,
    };
    let f = DistributedFragment {
        fragment_id: if is_final {
            layer_end
        } else {
            layer_start
        },
        layer_start,
        layer_end,
        ops,
        weights,
        tensors,
        config: c,
        n_kv_heads,
        head_dim,
    };
    assert(f@.ops =~= seq![RpnOp::Var(0)]);
    f
}

/// Width of one attention head: the embedding width over the head count.
pub fn head_dim(config: &ModelConfig) -> (d: u32)
    requires
        config.n_heads > 0,
    ensures
        d == config.n_embd / config.n_heads,
{
    config.n_embd / config.n_heads
}

/// Decodes the instruction at the start of `bytes`: the instruction and
/// the number of bytes it takes.
pub fn deserialize_op(bytes: &[u8]) -> (r: Result<(RpnOp, usize), FormatError>)
    ensures
        match r {
            Ok((op, n)) => decode_op(bytes@, 0) == Ok::<(RpnOp, int), FormatError>((op, n as int)),
            Err(e) => decode_op(bytes@, 0) == Err::<(RpnOp, int), FormatError>(e),
        },
{
    decode_op_at(bytes, 0)
}

// ---------------------------------------------------------------------------
// Header of a compiled model directory
// ---------------------------------------------------------------------------

/// `f64` constants (as bit patterns) written one after the other.
pub open spec fn pool_bytes(pool: Seq<u64>) -> Seq<u8>
    decreases pool.len(),
{
    if pool.len() == 0 {
        Seq::empty()
    } else {
        pool_bytes(pool.drop_last()) + le64(pool.last())
    }
}

/// Reads `n` constants at `off`.
pub open spec fn rd_pool(b: Seq<u8>, off: int, n: nat) -> Result<(Seq<u64>, int), FormatError>
    decreases n,
{
    if n == 0 {
        Ok((Seq::empty(), off))
    } else {
        match rd_pool(b, off, (n - 1) as nat) {
            Err(e) => Err(e),
            Ok((ps, o)) => match rd64(b, o) {
                Err(e) => Err(e),
                Ok((p, o2)) => Ok((ps.push(p), o2)),
            },
        }
    }
}

/// Bytes of the header file of a compiled model of `n_fragments`
/// fragments, shape `c` and constant pool `pool`: the header of a
/// distributed model followed by the pool and its `u64` length.
pub open spec fn model_header_bytes(n_fragments: nat, c: ModelConfigView, pool: Seq<u64>) -> Seq<
    u8,
> {
    header_bytes(n_fragments, c) + le64(pool.len() as u64) + pool_bytes(pool)
}

/// The model shape, fragment count and constant pool of the header file
/// of a compiled model, or why it holds none. The version is not checked;
/// bytes after the pool are ignored.
pub open spec fn model_header_spec(b: Seq<u8>) -> Result<
    (ModelConfigView, nat, Seq<u64>),
    FormatError,
> {
    if b.len() < 12 {
        Err(FormatError::TooSmall)
    } else if read_le32(b, 0) != BMLGRAPH_MAGIC {
        Err(FormatError::BadMagic(read_le32(b, 0)))
    } else {
        match rd_text64(b, 12) {
            Err(e) => Err(e),
            Ok((architecture, o)) => match rd_shape(b, o, architecture) {
                Err(e) => Err(e),
                Ok((c, o2)) => match rd64(b, o2) {
                    Err(e) => Err(e),
                    Ok((n, o3)) => match rd_pool(b, o3, n as nat) {
                        Err(e) => Err(e),
                        Ok((pool, _)) => Ok((c, read_le32(b, 8) as nat, pool)),
                    },
                },
            },
        }
    }
}

#[verifier::spinoff_prover]
proof fn lemma_rd_pool_err(b: Seq<u8>, off: int, k: nat, n: nat)
    requires
        k <= n,
        rd_pool(b, off, k) is Err,
    ensures
        rd_pool(b, off, n) == rd_pool(b, off, k),
    decreases n - k,
{
    if k < n {
        lemma_rd_pool_err(b, off, k, (n - 1) as nat);
    }
}

fn take_pool(bytes: &[u8], off: usize, n: u64) -> (r: Result<(Vec<u64>, usize), FormatError>)
    ensures
        match r {
            Ok((ps, o)) => rd_pool(bytes@, off as int, n as nat) == Ok::<
                (Seq<u64>, int),
                FormatError,
            >((ps@, o as int)),
            Err(e) => rd_pool(bytes@, off as int, n as nat) == Err::<(Seq<u64>, int), FormatError>(
                e,
            ),
        },
{
    let mut ps: Vec<u64> = Vec::new();
    let mut o = off;
    let mut k: u64 = 0;
    while k < n
        invariant
            k <= n,
            rd_pool(bytes@, off as int, k as nat) == Ok::<(Seq<u64>, int), FormatError>(
                (ps@, o as int),
            ),
        decreases n - k,
    {
        match take_u64(bytes, o) {
            Err(e) => {
                proof {
                    lemma_rd_pool_err(bytes@, off as int, (k + 1) as nat, n as nat);
                }
                return Err(e);
            },
            Ok((p, o2)) => {
                ps.push(p);
                o = o2;
            },
        }
        k += 1;
    }
    Ok((ps, o))
}

fn push_pool(out: &mut Vec<u8>, pool: &[u64])
    ensures
        final(out)@ == old(out)@ + pool_bytes(pool@),
{
    let mut i: usize = 0;
    while i < pool.len()
        invariant
            i <= pool@.len(),
            out@ == old(out)@ + pool_bytes(pool@.subrange(0, i as int)),
        decreases pool@.len() - i,
    {
        push_u64_le(out, pool[i]);
        assert(pool@.subrange(0, i + 1).drop_last() =~= pool@.subrange(0, i as int));
        assert(out@ =~= old(out)@ + pool_bytes(pool@.subrange(0, i + 1)));
        i += 1;
    }
    assert(pool@.subrange(0, i as int) =~= pool@);
}

/// The bytes of the header file of a compiled model of `n_fragments`
/// fragments, shape `config` and constant pool `const_pool` (the count is
/// truncated to `u32`).
pub fn encode_model_header(n_fragments: usize, config: &ModelConfig, const_pool: &[u64]) -> (bytes: Vec<u8>)
    ensures
        bytes@ == model_header_bytes(n_fragments as u32 as nat, config@, const_pool@),
{
    let mut bytes: Vec<u8> = Vec::new();
    push_u32_le(&mut bytes, BMLGRAPH_MAGIC);
    push_u32_le(&mut bytes, BMLGRAPH_VERSION);
    #[verifier::truncate]
    let n = n_fragments as u32;
    push_u32_le(&mut bytes, n);
    push_text64(&mut bytes, &config.architecture);
    push_shape(&mut bytes, config);
    push_u64_le(&mut bytes, const_pool.len() as u64);
    push_pool(&mut bytes, const_pool);
    assert(bytes@ =~= model_header_bytes(n as nat, config@, const_pool@));
    bytes
}

/// Reads the header file of a compiled model: the model shape, the
/// number of fragments and the constant pool.
pub fn decode_model_header(bytes: &[u8]) -> (r: Result<(ModelConfig, usize, Vec<u64>), FormatError>)
    ensures
        match r {
            Ok((c, n, pool)) => model_header_spec(bytes@) == Ok::<
                (ModelConfigView, nat, Seq<u64>),
                FormatError,
            >((c@, n as nat, pool@)),
            Err(e) => model_header_spec(bytes@) == Err::<
                (ModelConfigView, nat, Seq<u64>),
                FormatError,
            >(e),
        },
{
    if bytes.len() < 12 {
        return Err(FormatError::TooSmall);
    }
    let magic = read_u32_le(bytes, 0);
    if magic != BMLGRAPH_MAGIC {
        return Err(FormatError::BadMagic(magic));
    }
    let n_fragments = read_u32_le(bytes, 8);
    let (architecture, o) = match take_text64(bytes, 12) {
        Err(e) => return Err(e),
        Ok(x) => x,
    };
    let (c, o2) = match take_shape(bytes, o, architecture) {
        Err(e) => return Err(e),
        Ok(x) => x,
    };
    let (n, o3) = match take_u64(bytes, o2) {
        Err(e) => return Err(e),
        Ok(x) => x,
    };
    match take_pool(bytes, o3, n) {
        Err(e) => Err(e),
        Ok((pool, _)) => Ok((c, n_fragments as usize, pool)),
    }
}

#[verifier::spinoff_prover]
proof fn lemma_pool_at(b: Seq<u8>, o: int, pool: Seq<u64>)
    requires
        holds_at(b, o, pool_bytes(pool)),
    ensures
        rd_pool(b, o, pool.len()) == Ok::<(Seq<u64>, int), FormatError>(
            (pool, o + pool_bytes(pool).len()),
        ),
    decreases pool.len(),
{
    if pool.len() > 0 {
        let init = pool.drop_last();
        let last = pool.last();
        lemma_split(b, o, pool_bytes(init), le64(last));
        lemma_pool_at(b, o, init);
        lemma_rd64_at(b, o + pool_bytes(init).len(), last);
        assert(init.push(last) =~= pool);
    } else {
        assert(pool =~= Seq::<u64>::empty());
    }
}

#[verifier::rlimit(40)]
#[verifier::spinoff_prover]
proof fn lemma_header_at(b: Seq<u8>, n_fragments: nat, c: ModelConfigView)
    requires
        holds_at(b, 0, header_bytes(n_fragments, c)),
        n_fragments <= u32::MAX,
        encode_utf8(c.architecture).len() <= u64::MAX,
    ensures
        b.len() >= 12,
        read_le32(b, 0) == BMLGRAPH_MAGIC,
        read_le32(b, 8) == n_fragments,
        rd_text64(b, 12) matches Ok((a, o)) && a == c.architecture && rd_shape(b, o, a) == Ok::<
            (ModelConfigView, int),
            FormatError,
        >((c, header_bytes(n_fragments, c).len() as int)),
{
    let h1 = le32(BMLGRAPH_MAGIC);
    let h2 = h1 + le32(BMLGRAPH_VERSION);
    let h3 = h2 + le32(n_fragments as u32);
    let h4 = h3 + text64_bytes(c.architecture);
    lemma_split(b, 0, h4, shape_bytes(c));
    lemma_split(b, 0, h3, text64_bytes(c.architecture));
    lemma_split(b, 0, h2, le32(n_fragments as u32));
    lemma_split(b, 0, h1, le32(BMLGRAPH_VERSION));
    lemma_rd32_at(b, 0, BMLGRAPH_MAGIC);
    lemma_rd32_at(b, 8, n_fragments as u32);
    lemma_text64_at(b, 12, c.architecture);
    lemma_shape_at(b, h4.len() as int, c);
}

/// Reading the header file of a compiled model gives back its shape,
/// fragment count and constant pool, provided the count and the pool
/// length fit their fields.
#[verifier::rlimit(60)]
#[verifier::spinoff_prover]
pub proof fn law_model_header_roundtrip(
    n_fragments: nat,
    c: ModelConfigView,
    pool: Seq<u64>,
    trailing: Seq<u8>,
)
    requires
        n_fragments <= u32::MAX,
        encode_utf8(c.architecture).len() <= u64::MAX,
        pool.len() <= u64::MAX,
    ensures
        model_header_spec(model_header_bytes(n_fragments, c, pool) + trailing) == Ok::<
            (ModelConfigView, nat, Seq<u64>),
            FormatError,
        >((c, n_fragments, pool)),
{
    let h = header_bytes(n_fragments, c);
    let tail = le64(pool.len() as u64) + pool_bytes(pool);
    let b = model_header_bytes(n_fragments, c, pool) + trailing;
    assert(model_header_bytes(n_fragments, c, pool) =~= h + tail);
    lemma_whole(h + tail, trailing);
    lemma_split(b, 0, h, tail);
    lemma_split(b, h.len() as int, le64(pool.len() as u64), pool_bytes(pool));
    lemma_header_at(b, n_fragments, c);
    lemma_rd64_at(b, h.len() as int, pool.len() as u64);
    lemma_pool_at(b, h.len() + 8int, pool);
}

/// The byte contents of a list of files.
pub open spec fn files_view(files: Seq<Vec<u8>>) -> Seq<Seq<u8>> {
    files.map_values(|f: Vec<u8>| f@)
}

/// The fragment files of a compiled model directory, in order.
pub open spec fn model_files_bytes(parts: Seq<Seq<RpnOp>>) -> Seq<Seq<u8>> {
    parts.map_values(|ops: Seq<RpnOp>| shm_bytes(ops))
}

/// The fragments that the fragment files `files` (in order) hold, or the
/// error of the first file that holds none.
pub open spec fn model_files_spec(files: Seq<Seq<u8>>) -> Result<Seq<Seq<RpnOp>>, FormatError>
    decreases files.len(),
{
    if files.len() == 0 {
        Ok(Seq::empty())
    } else {
        match model_files_spec(files.drop_last()) {
            Err(e) => Err(e),
            Ok(parts) => match shm_decode_spec(files.last()) {
                Err(e) => Err(e),
                Ok(ops) => Ok(parts.push(ops)),
            },
        }
    }
}

/// The contents of the fragment files of a compiled model directory: one
/// shared fragment file per fragment, in order.
pub fn encode_model_fragments(fragments: &[Fragment]) -> (files: Vec<Vec<u8>>)
    ensures
        files_view(files@) == model_files_bytes(frag_seqs(fragments@)),
{
    let mut files: Vec<Vec<u8>> = Vec::new();
    let mut i: usize = 0;
    assert(files_view(files@) =~= model_files_bytes(frag_seqs(fragments@.subrange(0, 0))));
    while i < fragments.len()
        invariant
            i <= fragments@.len(),
            files_view(files@) == model_files_bytes(frag_seqs(fragments@.subrange(0, i as int))),
        decreases fragments@.len() - i,
    {
        let ghost before = files@;
        let ghost pre = fragments@.subrange(0, i as int);
        let ghost cur = fragments@.subrange(0, i + 1);
        files.push(encode_shm_fragment(&fragments[i]));
        proof {
            assert(cur =~= pre.push(fragments@[i as int]));
            assert(frag_seqs(cur) =~= frag_seqs(pre).push(fragments@[i as int].ops@));
            assert(model_files_bytes(frag_seqs(cur)) =~= model_files_bytes(frag_seqs(pre)).push(
                shm_bytes(fragments@[i as int].ops@),
            ));
            assert(files_view(files@) =~= files_view(before).push(files@[i as int]@));
        }
        i = i + 1;
    }
    assert(fragments@.subrange(0, fragments@.len() as int) =~= fragments@);
    files
}

/// Reads the fragment files of a compiled model directory, in order (see
/// [`model_files_spec`]).
pub fn decode_model_fragments(files: &[Vec<u8>]) -> (r: Result<Vec<Fragment>, FormatError>)
    ensures
        match r {
            Ok(fs) => model_files_spec(files_view(files@)) == Ok::<Seq<Seq<RpnOp>>, FormatError>(
                frag_seqs(fs@),
            ),
            Err(e) => model_files_spec(files_view(files@)) == Err::<Seq<Seq<RpnOp>>, FormatError>(e),
        },
{
    let mut out: Vec<Fragment> = Vec::new();
    let mut i: usize = 0;
    assert(files_view(files@.subrange(0, 0)) =~= Seq::<Seq<u8>>::empty());
    assert(frag_seqs(out@) =~= Seq::<Seq<RpnOp>>::empty());
    while i < files.len()
        invariant
            i <= files@.len(),
            model_files_spec(files_view(files@.subrange(0, i as int))) == Ok::<
                Seq<Seq<RpnOp>>,
                FormatError,
            >(frag_seqs(out@)),
        decreases files@.len() - i,
    {
        let ghost sub = files_view(files@.subrange(0, i + 1));
        assert(sub.drop_last() =~= files_view(files@.subrange(0, i as int)));
        assert(sub.last() == files@[i as int]@);
        match decode_shm_fragment(files[i].as_slice()) {
            Err(e) => {
                proof {
                    let all = files_view(files@);
                    assert(all.subrange(0, i + 1) =~= sub);
                    assert(model_files_spec(sub) == Err::<Seq<Seq<RpnOp>>, FormatError>(e));
                    lemma_model_files_err(all, (i + 1) as nat, files@.len());
                    assert(all.subrange(0, files@.len() as int) =~= all);
                }
                return Err(e);
            },
            Ok(f) => {
                let ghost before = out@;
                out.push(f);
                assert(frag_seqs(out@) =~= frag_seqs(before).push(f.ops@));
            },
        }
        i = i + 1;
    }
    assert(files@.subrange(0, files@.len() as int) =~= files@);
    Ok(out)
}

proof fn lemma_model_files_err(files: Seq<Seq<u8>>, k: nat, n: nat)
    requires
        k <= n <= files.len(),
        model_files_spec(files.subrange(0, k as int)) is Err,
    ensures
        model_files_spec(files.subrange(0, n as int)) == model_files_spec(files.subrange(0, k as int)),
    decreases n - k,
{
    if k < n {
        lemma_model_files_err(files, k, (n - 1) as nat);
        assert(files.subrange(0, n as int).drop_last() =~= files.subrange(0, n - 1));
    }
}

proof fn lemma_model_files_roundtrip(parts: Seq<Seq<RpnOp>>)
    requires
        forall|i: int| 0 <= i < parts.len() ==> (#[trigger] parts[i]).len() <= u32::MAX,
    ensures
        model_files_spec(model_files_bytes(parts)) == Ok::<Seq<Seq<RpnOp>>, FormatError>(parts),
    decreases parts.len(),
{
    if parts.len() > 0 {
        let init = parts.drop_last();
        let last = parts.last();
        assert forall|i: int| 0 <= i < init.len() implies (#[trigger] init[i]).len() <= u32::MAX by {
            assert(init[i] == parts[i]);
        }
        lemma_model_files_roundtrip(init);
        let b = model_files_bytes(parts);
        assert(b.drop_last() =~= model_files_bytes(init));
        assert(parts[parts.len() - 1].len() <= u32::MAX);
        law_shm_roundtrip(last, Seq::empty());
        assert(shm_bytes(last) + Seq::<u8>::empty() =~= shm_bytes(last));
        assert(b.last() == shm_bytes(last));
        assert(init.push(last) =~= parts);
    } else {
        assert(model_files_bytes(parts) =~= Seq::<Seq<u8>>::empty());
        assert(parts =~= Seq::<Seq<RpnOp>>::empty());
    }
}

/// Reading back a compiled model directory (its header file, then its
/// fragment files in order) gives back the shape, the fragment count, the
/// constant pool and the fragments that were written, provided the counts
/// and the architecture name fit their fields.
pub proof fn law_model_directory_roundtrip(c: ModelConfigView, pool: Seq<u64>, parts: Seq<Seq<RpnOp>>)
    requires
        parts.len() <= u32::MAX,
        forall|i: int| 0 <= i < parts.len() ==> (#[trigger] parts[i]).len() <= u32::MAX,
        encode_utf8(c.architecture).len() <= u64::MAX,
        pool.len() <= u64::MAX,
    ensures
        model_header_spec(model_header_bytes(parts.len(), c, pool)) == Ok::<
            (ModelConfigView, nat, Seq<u64>),
            FormatError,
        >((c, parts.len(), pool)),
        model_files_spec(model_files_bytes(parts)) == Ok::<Seq<Seq<RpnOp>>, FormatError>(parts),
{
    law_model_header_roundtrip(parts.len(), c, pool, Seq::empty());
    assert(model_header_bytes(parts.len(), c, pool) + Seq::<u8>::empty() =~= model_header_bytes(
        parts.len(),
        c,
        pool,
    ));
    lemma_model_files_roundtrip(parts);
}

/// Name of the header file of a model directory.
pub fn header_file_name() -> (name: &'static str)
    ensures
        name@ == "header.bmlgraph"@,
{
    "header.bmlgraph"
}

/// Name of the file of fragment `id` in a model directory.
pub open spec fn model_fragment_file_name(id: u32) -> Seq<char> {
    "fragment_"@ + decimal(id as nat) + ".bmlgraph"@
}

/// Name of the file of fragment `id` in a model directory.
pub fn fragment_file_name(id: u32) -> (name: String)
    ensures
        name@ == model_fragment_file_name(id),
{
    let mut name = String::from_str("fragment_");
    let d = decimal_string(id);
    name.append(d.as_str());
    name.append(".bmlgraph");
    name
}

} // verus!
