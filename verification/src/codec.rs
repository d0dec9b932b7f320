//! Byte encoding of RPN instructions, shared by every `.bmlgraph` format.
//!
//! Each instruction is a one-byte tag followed by its little-endian `u32`
//! operands:
//!
//! | tag | instruction | operands |
//! |---|---|---|
//! | 0 | `One` | |
//! | 1 | `Bml` | |
//! | 2 | `Dup` | |
//! | 3 | `Loop` | `count`, `body_len` |
//! | 4 | `Var` | `id` |
//! | 5 | `Const` | `id` |
//! | 6 | `Zero` | |
//! | 7 | `VarIndexed` | `base` |
//! | 8 | `StoreResult` | `slot` |
//! | 9 | `FAdd` | |
//! | 10 | `FMul` | |
//! | 11 | `Pick` | `depth` |
//! | 12 | `Drop` | |
//! | 13 | `Swap` | |
use crate::rpn::RpnOp;
use vstd::prelude::*;

verus! {

/// Why a byte sequence is not a valid encoding.
#[derive(Debug, Clone, Copy, PartialEq, Eq, Structural)]
pub enum FormatError {
    /// Shorter than the fixed header.
    TooSmall,
    /// The magic number is not the expected one (the value read).
    BadMagic(u32),
    /// The version is not supported (the value read).
    BadVersion(u32),
    /// The input ends inside a length field.
    TruncatedLength,
    /// The input ends where an instruction tag is expected.
    TruncatedOp,
    /// The input ends inside the operands of the instruction with this tag.
    TruncatedOperand(u8),
    /// Unknown instruction tag.
    UnknownTag(u8),
    /// The input ends inside a fixed-size field or a byte string.
    TruncatedData,
}

/// Little-endian bytes of a `u32`.
pub open spec fn le32(x: u32) -> Seq<u8> {
    seq![
        (x % 256) as u8,
        ((x / 256) % 256) as u8,
        ((x / 65536) % 256) as u8,
        (x / 16777216) as u8,
    ]
}

/// The `u32` whose little-endian bytes start at `off`.
pub open spec fn read_le32(b: Seq<u8>, off: int) -> u32 {
    (b[off] as int + b[off + 1] as int * 256 + b[off + 2] as int * 65536 + b[off + 3] as int
        * 16777216) as u32
}

/// Little-endian bytes of a `u64`.
pub open spec fn le64(x: u64) -> Seq<u8> {
    le32((x % 4294967296) as u32) + le32((x / 4294967296) as u32)
}

/// The `u64` whose little-endian bytes start at `off`.
pub open spec fn read_le64(b: Seq<u8>, off: int) -> u64 {
    (read_le32(b, off) as int + read_le32(b, off + 4) as int * 4294967296) as u64
}

/// Reading back the bytes of `x` gives `x`.
pub proof fn lemma_le32_roundtrip(x: u32, pre: Seq<u8>, post: Seq<u8>)
    ensures
        read_le32(pre + le32(x) + post, pre.len() as int) == x,
{
    let b = pre + le32(x) + post;
    let o = pre.len() as int;
    assert(b[o] == (x % 256) as u8);
    assert(b[o + 1] == ((x / 256) % 256) as u8);
    assert(b[o + 2] == ((x / 65536) % 256) as u8);
    assert(b[o + 3] == (x / 16777216) as u8);
    assert((x % 256) as u8 as int + ((x / 256) % 256) as u8 as int * 256 + ((x / 65536) % 256) as u8 as int * 65536
        + (x / 16777216) as u8 as int * 16777216 == x as int) by (bit_vector);
}

/// Reading back the bytes of `x` gives `x`.
pub proof fn lemma_le64_roundtrip(x: u64, pre: Seq<u8>, post: Seq<u8>)
    ensures
        read_le64(pre + le64(x) + post, pre.len() as int) == x,
{
    let lo = (x % 4294967296) as u32;
    let hi = (x / 4294967296) as u32;
    assert(pre + le64(x) + post =~= pre + le32(lo) + (le32(hi) + post));
    lemma_le32_roundtrip(lo, pre, le32(hi) + post);
    assert(pre + le64(x) + post =~= (pre + le32(lo)) + le32(hi) + post);
    lemma_le32_roundtrip(hi, pre + le32(lo), post);
    assert((x % 4294967296) as u32 as int + (x / 4294967296) as u32 as int * 4294967296 == x as int)
        by (bit_vector);
}

/// Appends the little-endian bytes of `x`.
pub fn push_u32_le(out: &mut Vec<u8>, x: u32)
    ensures
        final(out)@ == old(out)@ + le32(x),
{
    out.push((x % 256) as u8);
    out.push(((x / 256) % 256) as u8);
    out.push(((x / 65536) % 256) as u8);
    out.push((x / 16777216) as u8);
    assert(out@ =~= old(out)@ + le32(x));
}

/// Appends the little-endian bytes of `x`.
pub fn push_u64_le(out: &mut Vec<u8>, x: u64)
    ensures
        final(out)@ == old(out)@ + le64(x),
{
    push_u32_le(out, (x % 4294967296) as u32);
    push_u32_le(out, (x / 4294967296) as u32);
    assert(out@ =~= old(out)@ + le64(x));
}

/// Reads the little-endian `u32` at `off`.
pub fn read_u32_le(bytes: &[u8], off: usize) -> (x: u32)
    requires
        off + 4 <= bytes@.len(),
    ensures
        x == read_le32(bytes@, off as int),
{
    let b0 = bytes[off] as u32;
    let b1 = bytes[off + 1] as u32;
    let b2 = bytes[off + 2] as u32;
    let b3 = bytes[off + 3] as u32;
    b0 + b1 * 256 + b2 * 65536 + b3 * 16777216
}

/// Reads the little-endian `u64` at `off`.
pub fn read_u64_le(bytes: &[u8], off: usize) -> (x: u64)
    requires
        off + 8 <= bytes@.len(),
    ensures
        x == read_le64(bytes@, off as int),
{
    let len = bytes.len();
    assert(off + 4 <= len);
    let lo = read_u32_le(bytes, off) as u64;
    let hi = read_u32_le(bytes, off + 4) as u64;
    lo + hi * 4294967296
}

/// Encoding of one instruction.
pub open spec fn encode_op(op: RpnOp) -> Seq<u8> {
    match op {
        RpnOp::One => seq![0u8],
        RpnOp::Bml => seq![1u8],
        RpnOp::Dup => seq![2u8],
        RpnOp::Loop { count, body_len } => seq![3u8] + le32(count) + le32(body_len),
        RpnOp::Var(id) => seq![4u8] + le32(id),
        RpnOp::Const(id) => seq![5u8] + le32(id),
        RpnOp::Zero => seq![6u8],
        RpnOp::VarIndexed { base } => seq![7u8] + le32(base),
        RpnOp::StoreResult { slot } => seq![8u8] + le32(slot),
        RpnOp::FAdd => seq![9u8],
        RpnOp::FMul => seq![10u8],
        RpnOp::Pick { depth } => seq![11u8] + le32(depth),
        RpnOp::Drop => seq![12u8],
        RpnOp::Swap => seq![13u8],
    }
}

/// Encoding of a sequence of instructions, one after the other.
pub open spec fn encode_ops(ops: Seq<RpnOp>) -> Seq<u8>
    decreases ops.len(),
{
    if ops.len() == 0 {
        Seq::empty()
    } else {
        encode_ops(ops.drop_last()) + encode_op(ops.last())
    }
}

/// Number of `u32` operands that follow the tag, or `None` for an unknown tag.
pub open spec fn operand_count(tag: u8) -> Option<int> {
    if tag == 0 || tag == 1 || tag == 2 || tag == 6 || tag == 9 || tag == 10 || tag == 12 || tag
        == 13 {
        Some(0)
    } else if tag == 3 {
        Some(2)
    } else if 4 <= tag <= 8 || tag == 11 {
        Some(1)
    } else {
        None
    }
}

/// The instruction with this tag and these operands.
pub open spec fn op_of(tag: u8, a: u32, b: u32) -> RpnOp {
    if tag == 0 {
        RpnOp::One
    } else if tag == 1 {
        RpnOp::Bml
    } else if tag == 2 {
        RpnOp::Dup
    } else if tag == 3 {
        RpnOp::Loop { count: a, body_len: b }
    } else if tag == 4 {
        RpnOp::Var(a)
    } else if tag == 5 {
        RpnOp::Const(a)
    } else if tag == 6 {
        RpnOp::Zero
    } else if tag == 7 {
        RpnOp::VarIndexed { base: a }
    } else if tag == 8 {
        RpnOp::StoreResult { slot: a }
    } else if tag == 9 {
        RpnOp::FAdd
    } else if tag == 10 {
        RpnOp::FMul
    } else if tag == 11 {
        RpnOp::Pick { depth: a }
    } else if tag == 12 {
        RpnOp::Drop
    } else {
        RpnOp::Swap
    }
}

/// Decodes the instruction at `off`: the instruction and the offset just
/// after it, or why that fails.
pub open spec fn decode_op(b: Seq<u8>, off: int) -> Result<(RpnOp, int), FormatError> {
    if off >= b.len() {
        Err(FormatError::TruncatedOp)
    } else {
        let tag = b[off];
        match operand_count(tag) {
            None => Err(FormatError::UnknownTag(tag)),
            Some(n) => if off + 1 + 4 * n > b.len() {
                Err(FormatError::TruncatedOperand(tag))
            } else {
                let a = if n >= 1 {
                    read_le32(b, off + 1)
                } else {
                    0u32
                };
                let c = if n >= 2 {
                    read_le32(b, off + 5)
                } else {
                    0u32
                };
                Ok((op_of(tag, a, c), off + 1 + 4 * n))
            },
        }
    }
}

/// Decodes `n` instructions starting at `off`.
pub open spec fn decode_ops(b: Seq<u8>, off: int, n: nat) -> Result<(Seq<RpnOp>, int), FormatError>
    decreases n,
{
    if n == 0 {
        Ok((Seq::empty(), off))
    } else {
        match decode_ops(b, off, (n - 1) as nat) {
            Err(e) => Err(e),
            Ok((ops, o)) => match decode_op(b, o) {
                Err(e) => Err(e),
                Ok((op, o2)) => Ok((ops.push(op), o2)),
            },
        }
    }
}

/// Decoding an encoded instruction gives it back.
pub proof fn lemma_decode_encode_op(op: RpnOp, pre: Seq<u8>, post: Seq<u8>)
    ensures
        decode_op(pre + encode_op(op) + post, pre.len() as int) == Ok::<(RpnOp, int), FormatError>(
            (op, (pre.len() + encode_op(op).len()) as int),
        ),
{
    let b = pre + encode_op(op) + post;
    let o = pre.len() as int;
    match op {
        RpnOp::Loop { count, body_len } => {
            assert(b =~= pre + seq![3u8] + le32(count) + (le32(body_len) + post));
            lemma_le32_roundtrip(count, pre + seq![3u8], le32(body_len) + post);
            assert(b =~= (pre + seq![3u8] + le32(count)) + le32(body_len) + post);
            lemma_le32_roundtrip(body_len, pre + seq![3u8] + le32(count), post);
        },
        RpnOp::Var(a) => {
            assert(b =~= pre + seq![4u8] + le32(a) + post);
            lemma_le32_roundtrip(a, pre + seq![4u8], post);
        },
        RpnOp::Const(a) => {
            assert(b =~= pre + seq![5u8] + le32(a) + post);
            lemma_le32_roundtrip(a, pre + seq![5u8], post);
        },
        RpnOp::VarIndexed { base } => {
            assert(b =~= pre + seq![7u8] + le32(base) + post);
            lemma_le32_roundtrip(base, pre + seq![7u8], post);
        },
        RpnOp::StoreResult { slot } => {
            assert(b =~= pre + seq![8u8] + le32(slot) + post);
            lemma_le32_roundtrip(slot, pre + seq![8u8], post);
        },
        RpnOp::Pick { depth } => {
            assert(b =~= pre + seq![11u8] + le32(depth) + post);
            lemma_le32_roundtrip(depth, pre + seq![11u8], post);
        },
        _ => {
            assert(b[o] == encode_op(op)[0]);
        },
    }
}

/// Decoding `ops.len()` instructions from their encoding gives them back.
pub proof fn lemma_decode_encode_ops(ops: Seq<RpnOp>, pre: Seq<u8>, post: Seq<u8>)
    ensures
        decode_ops(pre + encode_ops(ops) + post, pre.len() as int, ops.len()) == Ok::<
            (Seq<RpnOp>, int),
            FormatError,
        >((ops, (pre.len() + encode_ops(ops).len()) as int)),
    decreases ops.len(),
{
    if ops.len() > 0 {
        let init = ops.drop_last();
        let last = ops.last();
        assert(pre + encode_ops(ops) + post =~= pre + encode_ops(init) + (encode_op(last) + post));
        lemma_decode_encode_ops(init, pre, encode_op(last) + post);
        assert(pre + encode_ops(ops) + post =~= (pre + encode_ops(init)) + encode_op(last) + post);
        lemma_decode_encode_op(last, pre + encode_ops(init), post);
        assert(init.push(last) =~= ops);
    } else {
        assert(ops =~= Seq::<RpnOp>::empty());
        assert(encode_ops(ops) =~= Seq::<u8>::empty());
    }
}

/// Appends the encoding of `op`.
pub fn encode_op_into(op: RpnOp, out: &mut Vec<u8>)
    ensures
        final(out)@ == old(out)@ + encode_op(op),
{
    let ghost o = out@;
    match op {
        RpnOp::One => out.push(0),
        RpnOp::Bml => out.push(1),
        RpnOp::Dup => out.push(2),
        RpnOp::Loop { count, body_len } => {
            out.push(3);
            push_u32_le(out, count);
            push_u32_le(out, body_len);
        },
        RpnOp::Var(id) => {
            out.push(4);
            push_u32_le(out, id);
        },
        RpnOp::Const(id) => {
            out.push(5);
            push_u32_le(out, id);
        },
        RpnOp::Zero => out.push(6),
        RpnOp::VarIndexed { base } => {
            out.push(7);
            push_u32_le(out, base);
        },
        RpnOp::StoreResult { slot } => {
            out.push(8);
            push_u32_le(out, slot);
        },
        RpnOp::FAdd => out.push(9),
        RpnOp::FMul => out.push(10),
        RpnOp::Pick { depth } => {
            out.push(11);
            push_u32_le(out, depth);
        },
        RpnOp::Drop => out.push(12),
        RpnOp::Swap => out.push(13),
    }
    assert(out@ =~= o + encode_op(op));
}

/// Appends the encoding of every instruction of `ops`, in order.
pub fn encode_ops_into(ops: &[RpnOp], out: &mut Vec<u8>)
    ensures
        final(out)@ == old(out)@ + encode_ops(ops@),
{
    let mut i: usize = 0;
    while i < ops.len()
        invariant
            i <= ops@.len(),
            out@ == old(out)@ + encode_ops(ops@.subrange(0, i as int)),
        decreases ops@.len() - i,
    {
        let ghost before = out@;
        encode_op_into(ops[i], out);
        assert(ops@.subrange(0, i + 1).drop_last() =~= ops@.subrange(0, i as int));
        assert(out@ =~= old(out)@ + encode_ops(ops@.subrange(0, i + 1)));
        i += 1;
    }
    assert(ops@.subrange(0, ops@.len() as int) =~= ops@);
}

/// Decodes the instruction at `off` (see [`decode_op`]).
pub fn decode_op_at(bytes: &[u8], off: usize) -> (r: Result<(RpnOp, usize), FormatError>)
    ensures
        match r {
            Ok((op, o)) => decode_op(bytes@, off as int) == Ok::<(RpnOp, int), FormatError>(
                (op, o as int),
            ),
            Err(e) => decode_op(bytes@, off as int) == Err::<(RpnOp, int), FormatError>(e),
        },
{
    if off >= bytes.len() {
        return Err(FormatError::TruncatedOp);
    }
    let tag = bytes[off];
    let n: usize = if tag == 0 || tag == 1 || tag == 2 || tag == 6 || tag == 9 || tag == 10 || tag
        == 12 || tag == 13 {
        0
    } else if tag == 3 {
        2
    } else if 4 <= tag && tag <= 8 || tag == 11 {
        1
    } else {
        return Err(FormatError::UnknownTag(tag));
    };
    if bytes.len() - off - 1 < 4 * n {
        return Err(FormatError::TruncatedOperand(tag));
    }
    let a = if n >= 1 {
        read_u32_le(bytes, off + 1)
    } else {
        0
    };
    let c = if n >= 2 {
        read_u32_le(bytes, off + 5)
    } else {
        0
    };
    let op = if tag == 0 {
        RpnOp::One
    } else if tag == 1 {
        RpnOp::Bml
    } else if tag == 2 {
        RpnOp::Dup
    } else if tag == 3 {
        RpnOp::Loop { count: a, body_len: c }
    } else if tag == 4 {
        RpnOp::Var(a)
    } else if tag == 5 {
        RpnOp::Const(a)
    } else if tag == 6 {
        RpnOp::Zero
    } else if tag == 7 {
        RpnOp::VarIndexed { base: a }
    } else if tag == 8 {
        RpnOp::StoreResult { slot: a }
    } else if tag == 9 {
        RpnOp::FAdd
    } else if tag == 10 {
        RpnOp::FMul
    } else if tag == 11 {
        RpnOp::Pick { depth: a }
    } else if tag == 12 {
        RpnOp::Drop
    } else {
        RpnOp::Swap
    };
    Ok((op, off + 1 + 4 * n))
}

/// Decodes `n` instructions starting at `off` (see [`decode_ops`]).
pub fn decode_ops_at(bytes: &[u8], off: usize, n: u32) -> (r: Result<(Vec<RpnOp>, usize), FormatError>)
    ensures
        match r {
            Ok((ops, o)) => decode_ops(bytes@, off as int, n as nat) == Ok::<
                (Seq<RpnOp>, int),
                FormatError,
            >((ops@, o as int)),
            Err(e) => decode_ops(bytes@, off as int, n as nat) == Err::<
                (Seq<RpnOp>, int),
                FormatError,
            >(e),
        },
{
    let mut ops: Vec<RpnOp> = Vec::new();
    let mut o = off;
    let mut k: u32 = 0;
    while k < n
        invariant
            k <= n,
            decode_ops(bytes@, off as int, k as nat) == Ok::<(Seq<RpnOp>, int), FormatError>(
                (ops@, o as int),
            ),
        decreases n - k,
    {
        match decode_op_at(bytes, o) {
            Err(e) => {
                proof {
                    lemma_decode_ops_err_propagates(bytes@, off as int, (k + 1) as nat, n as nat);
                }
                return Err(e);
            },
            Ok((op, o2)) => {
                ops.push(op);
                o = o2;
            },
        }
        k += 1;
    }
    Ok((ops, o))
}

/// Once decoding `k` instructions fails, decoding any `n >= k` fails the same way.
pub proof fn lemma_decode_ops_err_propagates(b: Seq<u8>, off: int, k: nat, n: nat)
    requires
        k <= n,
        decode_ops(b, off, k) is Err,
    ensures
        decode_ops(b, off, n) == decode_ops(b, off, k),
    decreases n - k,
{
    if k < n {
        lemma_decode_ops_err_propagates(b, off, k, (n - 1) as nat);
    }
}

} // verus!
