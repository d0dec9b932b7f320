//! The GGUF model format: data types, the fixed header and tensor
//! descriptions.
//!
//! A GGUF file starts with `[magic u32 = 0x46554747 ("GGUF")][version u32]
//! [tensor_count u64][metadata_kv_count u64]`, integers little-endian.
use crate::codec::{
    le32, le64, lemma_le32_roundtrip, lemma_le64_roundtrip, read_le32, read_le64, read_u32_le,
    read_u64_le,
};
use vstd::prelude::*;

verus! {

/// Magic number of GGUF: `"GGUF"` read as a little-endian `u32`.
pub const GGUF_MAGIC: u32 = 0x46554747;

/// Newest GGUF version this library reads.
pub const GGUF_SUPPORTED_VERSION: u32 = 3;

/// Data types of GGUF values, in the order of their codes `0..=12`.
#[derive(Debug, Clone, Copy, PartialEq, Eq, Structural)]
pub enum GgufDataType {
    /// `u8`
    U8,
    /// `i8`
    I8,
    /// `u16`
    U16,
    /// `i16`
    I16,
    /// `u32`
    U32,
    /// `i32`
    I32,
    /// `f32`
    F32,
    /// `bool`
    Bool,
    /// A string.
    String,
    /// An array.
    Array,
    /// `u64`
    U64,
    /// `i64`
    I64,
    /// `f64`
    F64,
}

/// Size in bytes of one element of type `t`; `0` for the variable-size
/// string and array types.
pub open spec fn element_size_spec(t: GgufDataType) -> nat {
    match t {
        GgufDataType::U8 | GgufDataType::I8 | GgufDataType::Bool => 1,
        GgufDataType::U16 | GgufDataType::I16 => 2,
        GgufDataType::U32 | GgufDataType::I32 | GgufDataType::F32 => 4,
        GgufDataType::U64 | GgufDataType::I64 | GgufDataType::F64 => 8,
        GgufDataType::String | GgufDataType::Array => 0,
    }
}

impl GgufDataType {
    /// Size in bytes of one element; `0` for strings and arrays, whose
    /// size varies.
    pub fn element_size(&self) -> (n: usize)
        ensures
            n == element_size_spec(*self),
    {
        match self {
            GgufDataType::U8 | GgufDataType::I8 | GgufDataType::Bool => 1,
            GgufDataType::U16 | GgufDataType::I16 => 2,
            GgufDataType::U32 | GgufDataType::I32 | GgufDataType::F32 => 4,
            GgufDataType::U64 | GgufDataType::I64 | GgufDataType::F64 => 8,
            GgufDataType::String | GgufDataType::Array => 0,
        }
    }
}

/// The fixed header of a GGUF file.
#[derive(Debug, Clone)]
pub struct GgufHeader {
    /// Magic number (`GGUF_MAGIC` in a valid file).
    pub magic: u32,
    /// Format version.
    pub version: u32,
    /// Number of tensors.
    pub tensor_count: u64,
    /// Number of metadata key-value pairs.
    pub metadata_kv_count: u64,
}

/// Description of a tensor of a GGUF file.
#[derive(Debug, Clone)]
pub struct GgufTensorInfo {
    /// Name of the tensor.
    pub name: String,
    /// Number of dimensions.
    pub n_dims: u32,
    /// The dimensions.
    pub dims: Vec<u64>,
    /// Element type.
    pub data_type: GgufDataType,
    /// Offset of the data from the start of the tensor data section.
    pub offset: u64,
}

/// Why bytes are not the start of a readable GGUF file.
#[derive(Debug, Clone, Copy, PartialEq, Eq, Structural)]
pub enum GgufError {
    /// Fewer than 24 bytes, the size of the header.
    TooSmall,
    /// The magic number is not `GGUF_MAGIC` (the value read).
    BadMagic(u32),
    /// The version is newer than `GGUF_SUPPORTED_VERSION` (the value read).
    UnsupportedVersion(u32),
}

/// The header of the file whose bytes are `b`, or why it is refused.
pub open spec fn gguf_header_spec(b: Seq<u8>) -> Result<(u32, u32, u64, u64), GgufError> {
    if b.len() < 24 {
        Err(GgufError::TooSmall)
    } else if read_le32(b, 0) != GGUF_MAGIC {
        Err(GgufError::BadMagic(read_le32(b, 0)))
    } else if read_le32(b, 4) > GGUF_SUPPORTED_VERSION {
        Err(GgufError::UnsupportedVersion(read_le32(b, 4)))
    } else {
        Ok((read_le32(b, 0), read_le32(b, 4), read_le64(b, 8), read_le64(b, 16)))
    }
}

/// Reads and checks the header of a GGUF file from its first bytes: the
/// magic number, the version and the two counts take 24 bytes.
pub fn parse_gguf_header(bytes: &[u8]) -> (r: Result<GgufHeader, GgufError>)
    ensures
        match r {
            Ok(h) => gguf_header_spec(bytes@) == Ok::<(u32, u32, u64, u64), GgufError>(
                (h.magic, h.version, h.tensor_count, h.metadata_kv_count),
            ),
            Err(e) => gguf_header_spec(bytes@) == Err::<(u32, u32, u64, u64), GgufError>(e),
        },
{
    if bytes.len() < 24 {
        return Err(GgufError::TooSmall);
    }
    let magic = read_u32_le(bytes, 0);
    let version = read_u32_le(bytes, 4);
    let tensor_count = read_u64_le(bytes, 8);
    let metadata_kv_count = read_u64_le(bytes, 16);
    if magic != GGUF_MAGIC {
        return Err(GgufError::BadMagic(magic));
    }
    if version > GGUF_SUPPORTED_VERSION {
        return Err(GgufError::UnsupportedVersion(version));
    }
    Ok(GgufHeader { magic, version, tensor_count, metadata_kv_count })
}

/// A file that starts with the GGUF magic, a version, a tensor count and a
/// metadata count (little-endian) is read as exactly that header whenever
/// the version is at most `GGUF_SUPPORTED_VERSION`, whatever follows; a
/// newer version is refused, naming it.
pub proof fn law_gguf_header_of_written_fields(version: u32, tensor_count: u64, metadata_kv_count: u64, rest: Seq<u8>)
    ensures
        ({
            let b = le32(GGUF_MAGIC) + le32(version) + le64(tensor_count) + le64(metadata_kv_count) + rest;
            &&& version <= GGUF_SUPPORTED_VERSION ==> gguf_header_spec(b) == Ok::<
                (u32, u32, u64, u64),
                GgufError,
            >((GGUF_MAGIC, version, tensor_count, metadata_kv_count))
            &&& version > GGUF_SUPPORTED_VERSION ==> gguf_header_spec(b) == Err::<
                (u32, u32, u64, u64),
                GgufError,
            >(GgufError::UnsupportedVersion(version))
        }),
{
    let e = Seq::<u8>::empty();
    let m = le32(GGUF_MAGIC);
    let v = le32(version);
    let t = le64(tensor_count);
    let k = le64(metadata_kv_count);
    let b = m + v + t + k + rest;
    assert(b =~= e + m + (v + t + k + rest));
    lemma_le32_roundtrip(GGUF_MAGIC, e, v + t + k + rest);
    assert(b =~= m + v + (t + k + rest));
    lemma_le32_roundtrip(version, m, t + k + rest);
    assert(b =~= (m + v) + t + (k + rest));
    lemma_le64_roundtrip(tensor_count, m + v, k + rest);
    assert(b =~= (m + v + t) + k + rest);
    lemma_le64_roundtrip(metadata_kv_count, m + v + t, rest);
    assert(b.len() >= 24);
}

} // verus!
