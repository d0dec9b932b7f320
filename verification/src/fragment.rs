//! Ahead-of-time micro-fragmentation and the `.bmlgraph` binary format.
//!
//! A program is cut into contiguous fragments whose pre-allocated size
//! stays under a cache threshold (32 KB for L1 by default). The runtime
//! runs the fragments in order, keeping the stack between them.
//!
//! Format:
//!
//! ```text
//! [magic: u32 = 0x4C4D4247]   // "BMLG" little-endian
//! [version: u32]
//! [num_fragments: u32]
//! [fragment_0_len: u32][fragment_0_ops...]
//! ...
//! ```
//!
//! A fragment of this format holds only the instructions `One`, `Bml`,
//! `Dup`, `Loop`, `Var` and `Const` (tags `0` to `5`); any other tag is
//! refused as unknown.
use crate::codec::{
    FormatError, decode_op, decode_op_at, encode_op, encode_ops, encode_ops_into, le32,
    lemma_decode_encode_op, lemma_le32_roundtrip, push_u32_le, read_le32, read_u32_le,
};
use crate::rpn::{RpnOp, RpnProgram};
use vstd::prelude::*;

verus! {

/// Magic number of `.bmlgraph`: `0x4C4D4247` ("BMLG" little-endian).
pub const BMLGRAPH_MAGIC: u32 = 0x4C4D4247;

/// Version of the `.bmlgraph` format.
pub const BMLGRAPH_VERSION: u32 = 1;

/// Default threshold: 32 KB (L1 cache).
pub const DEFAULT_L1_THRESHOLD: usize = 32 * 1024;

/// Threshold for the L3 cache: 1 MB.
pub const L3_THRESHOLD: usize = 1024 * 1024;

/// In-memory size of one instruction, in bytes.
pub open spec fn op_size() -> nat {
    vstd::layout::size_of::<RpnOp>()
}

/// A contiguous slice of instructions of a program.
#[derive(Debug, Clone, PartialEq)]
pub struct Fragment {
    /// Instructions of the fragment.
    pub ops: Vec<RpnOp>,
}

/// The instruction sequence of every fragment.
pub open spec fn frag_seqs(frags: Seq<Fragment>) -> Seq<Seq<RpnOp>> {
    frags.map_values(|f: Fragment| f.ops@)
}

/// All parts joined in order.
pub open spec fn concat_all(parts: Seq<Seq<RpnOp>>) -> Seq<RpnOp>
    decreases parts.len(),
{
    if parts.len() == 0 {
        Seq::empty()
    } else {
        concat_all(parts.drop_last()) + parts.last()
    }
}

/// `parts` is the greedy cut of `ops` under `threshold`: joined they give
/// `ops`; no part is empty; each part fits the threshold unless it is a
/// single instruction; and each part but the last could not take the
/// next instruction without exceeding the threshold.
pub open spec fn greedy_partition(parts: Seq<Seq<RpnOp>>, ops: Seq<RpnOp>, threshold: nat) -> bool {
    &&& concat_all(parts) == ops
    &&& forall|i: int|
        0 <= i < parts.len() ==> (#[trigger] parts[i]).len() >= 1 && (parts[i].len() == 1
            || parts[i].len() * op_size() <= threshold)
    &&& forall|i: int|
        0 <= i < parts.len() - 1 ==> ((#[trigger] parts[i]).len() + 1) * op_size() > threshold
}

proof fn lemma_mul_succ(k: nat, s: nat)
    ensures
        (k + 1) * s == k * s + s,
{
    assert((k + 1) * s == k * s + s) by (nonlinear_arith);
}

proof fn lemma_mul_mono(a: nat, b: nat, s: nat)
    requires
        a <= b,
    ensures
        a * s <= b * s,
{
    assert(a * s <= b * s) by (nonlinear_arith)
        requires
            a <= b,
    ;
}

impl Fragment {
    /// Creates an empty fragment.
    pub fn new() -> (f: Self)
        ensures
            f.ops@ == Seq::<RpnOp>::empty(),
    {
        Fragment { ops: Vec::new() }
    }

    /// Number of instructions.
    pub fn len(&self) -> (n: usize)
        ensures
            n == self.ops@.len(),
    {
        self.ops.len()
    }

    /// `true` iff the fragment has no instructions.
    pub fn is_empty(&self) -> (b: bool)
        ensures
            b == (self.ops@.len() == 0),
    {
        self.ops.len() == 0
    }

    /// Size of the fragment in bytes.
    pub fn byte_size(&self) -> (n: usize)
        requires
            self.ops@.len() * op_size() <= usize::MAX,
        ensures
            n == self.ops@.len() * op_size(),
    {
        self.ops.len() * std::mem::size_of::<RpnOp>()
    }

    /// Appends an instruction.
    pub fn push(&mut self, op: RpnOp)
        ensures
            final(self).ops@ == old(self).ops@.push(op),
    {
        self.ops.push(op);
    }
}

/// A fragmented BML graph (`.bmlgraph`).
#[derive(Debug, Clone)]
pub struct BmlGraph {
    /// Fragments, in execution order.
    pub fragments: Vec<Fragment>,
    /// Cache threshold used, in bytes.
    pub threshold: usize,
}

/// Total number of instructions of all parts.
pub open spec fn total_len(parts: Seq<Seq<RpnOp>>) -> nat
    decreases parts.len(),
{
    if parts.len() == 0 {
        0
    } else {
        total_len(parts.drop_last()) + parts.last().len()
    }
}

/// Serialized fragments: each one as its length followed by its instructions.
pub open spec fn encode_fragments(parts: Seq<Seq<RpnOp>>) -> Seq<u8>
    decreases parts.len(),
{
    if parts.len() == 0 {
        Seq::empty()
    } else {
        encode_fragments(parts.drop_last()) + le32(parts.last().len() as u32) + encode_ops(
            parts.last(),
        )
    }
}

/// The `.bmlgraph` bytes of a graph with these fragments.
pub open spec fn serialize_spec(parts: Seq<Seq<RpnOp>>) -> Seq<u8> {
    le32(BMLGRAPH_MAGIC) + le32(BMLGRAPH_VERSION) + le32(parts.len() as u32) + encode_fragments(
        parts,
    )
}

/// `op` is one of the six instructions of the `.bmlgraph` format.
pub open spec fn graph_op(op: RpnOp) -> bool {
    op is One || op is Bml || op is Dup || op is Loop || op is Var || op is Const
}

/// Decodes the instruction at `off` of a `.bmlgraph` fragment: as
/// [`decode_op`], but a tag above `5` is unknown.
pub open spec fn decode_graph_op(b: Seq<u8>, off: int) -> Result<(RpnOp, int), FormatError> {
    if 0 <= off < b.len() && b[off] > 5 {
        Err(FormatError::UnknownTag(b[off]))
    } else {
        decode_op(b, off)
    }
}

/// Decodes `n` instructions of a `.bmlgraph` fragment starting at `off`.
pub open spec fn decode_graph_ops(b: Seq<u8>, off: int, n: nat) -> Result<(Seq<RpnOp>, int), FormatError>
    decreases n,
{
    if n == 0 {
        Ok((Seq::empty(), off))
    } else {
        match decode_graph_ops(b, off, (n - 1) as nat) {
            Err(e) => Err(e),
            Ok((ops, o)) => match decode_graph_op(b, o) {
                Err(e) => Err(e),
                Ok((op, o2)) => Ok((ops.push(op), o2)),
            },
        }
    }
}

proof fn lemma_decode_graph_ops_err_propagates(b: Seq<u8>, off: int, k: nat, n: nat)
    requires
        k <= n,
        decode_graph_ops(b, off, k) is Err,
    ensures
        decode_graph_ops(b, off, n) == decode_graph_ops(b, off, k),
    decreases n - k,
{
    if k < n {
        lemma_decode_graph_ops_err_propagates(b, off, k, (n - 1) as nat);
    }
}

/// Decoding encoded `.bmlgraph` instructions gives them back.
proof fn lemma_decode_encode_graph_ops(ops: Seq<RpnOp>, pre: Seq<u8>, post: Seq<u8>)
    requires
        forall|i: int| 0 <= i < ops.len() ==> graph_op(#[trigger] ops[i]),
    ensures
        decode_graph_ops(pre + encode_ops(ops) + post, pre.len() as int, ops.len()) == Ok::<
            (Seq<RpnOp>, int),
            FormatError,
        >((ops, (pre.len() + encode_ops(ops).len()) as int)),
    decreases ops.len(),
{
    if ops.len() > 0 {
        let init = ops.drop_last();
        let last = ops.last();
        assert(graph_op(ops[ops.len() - 1]));
        assert forall|i: int| 0 <= i < init.len() implies graph_op(#[trigger] init[i]) by {
            assert(init[i] == ops[i]);
        }
        assert(pre + encode_ops(ops) + post =~= pre + encode_ops(init) + (encode_op(last) + post));
        lemma_decode_encode_graph_ops(init, pre, encode_op(last) + post);
        let b = pre + encode_ops(ops) + post;
        assert(b =~= (pre + encode_ops(init)) + encode_op(last) + post);
        lemma_decode_encode_op(last, pre + encode_ops(init), post);
        let o = (pre + encode_ops(init)).len() as int;
        assert(b[o] == encode_op(last)[0]);
        assert(b[o] <= 5);
        assert(init.push(last) =~= ops);
    } else {
        assert(ops =~= Seq::<RpnOp>::empty());
        assert(encode_ops(ops) =~= Seq::<u8>::empty());
    }
}

/// Decodes `n` instructions of a `.bmlgraph` fragment starting at `off`
/// (see [`decode_graph_ops`]).
fn decode_graph_ops_at(bytes: &[u8], off: usize, n: u32) -> (r: Result<(Vec<RpnOp>, usize), FormatError>)
    ensures
        match r {
            Ok((ops, o)) => decode_graph_ops(bytes@, off as int, n as nat) == Ok::<
                (Seq<RpnOp>, int),
                FormatError,
            >((ops@, o as int)),
            Err(e) => decode_graph_ops(bytes@, off as int, n as nat) == Err::<
                (Seq<RpnOp>, int),
                FormatError,
            >(e),
        },
{
    let mut ops: Vec<RpnOp> = Vec::new();
    let mut o = off;
    let mut k: u32 = 0;
    while k < n
        invariant
            k <= n,
            decode_graph_ops(bytes@, off as int, k as nat) == Ok::<(Seq<RpnOp>, int), FormatError>(
                (ops@, o as int),
            ),
        decreases n - k,
    {
        if o < bytes.len() && bytes[o] > 5 {
            proof {
                lemma_decode_graph_ops_err_propagates(bytes@, off as int, (k + 1) as nat, n as nat);
            }
            return Err(FormatError::UnknownTag(bytes[o]));
        }
        match decode_op_at(bytes, o) {
            Err(e) => {
                proof {
                    lemma_decode_graph_ops_err_propagates(bytes@, off as int, (k + 1) as nat, n as nat);
                }
                return Err(e);
            },
            Ok((op, o2)) => {
                ops.push(op);
                o = o2;
            },
        }
        k += 1;
    }
    Ok((ops, o))
}

/// Decodes one fragment (length, then instructions) at `off`.
pub open spec fn decode_fragment(b: Seq<u8>, off: int) -> Result<(Seq<RpnOp>, int), FormatError> {
    if off + 4 > b.len() {
        Err(FormatError::TruncatedLength)
    } else {
        decode_graph_ops(b, off + 4, read_le32(b, off) as nat)
    }
}

/// Decodes `k` fragments starting at `off`.
pub open spec fn decode_fragments(b: Seq<u8>, off: int, k: nat) -> Result<
    (Seq<Seq<RpnOp>>, int),
    FormatError,
>
    decreases k,
{
    if k == 0 {
        Ok((Seq::empty(), off))
    } else {
        match decode_fragments(b, off, (k - 1) as nat) {
            Err(e) => Err(e),
            Ok((parts, o)) => match decode_fragment(b, o) {
                Err(e) => Err(e),
                Ok((ops, o2)) => Ok((parts.push(ops), o2)),
            },
        }
    }
}

/// The fragments that a `.bmlgraph` byte sequence holds, or why it holds
/// none. Bytes after the last fragment are ignored.
pub open spec fn deserialize_spec(b: Seq<u8>) -> Result<Seq<Seq<RpnOp>>, FormatError> {
    if b.len() < 12 {
        Err(FormatError::TooSmall)
    } else if read_le32(b, 0) != BMLGRAPH_MAGIC {
        Err(FormatError::BadMagic(read_le32(b, 0)))
    } else if read_le32(b, 4) != BMLGRAPH_VERSION {
        Err(FormatError::BadVersion(read_le32(b, 4)))
    } else {
        match decode_fragments(b, 12, read_le32(b, 8) as nat) {
            Err(e) => Err(e),
            Ok((parts, _)) => Ok(parts),
        }
    }
}

/// Once decoding `k` fragments fails, decoding any `n >= k` fails the same way.
proof fn lemma_decode_fragments_err_propagates(b: Seq<u8>, off: int, k: nat, n: nat)
    requires
        k <= n,
        decode_fragments(b, off, k) is Err,
    ensures
        decode_fragments(b, off, n) == decode_fragments(b, off, k),
    decreases n - k,
{
    if k < n {
        lemma_decode_fragments_err_propagates(b, off, k, (n - 1) as nat);
    }
}

/// Decoding the encoding of fragments gives them back, whatever follows.
pub proof fn lemma_decode_encode_fragments(parts: Seq<Seq<RpnOp>>, pre: Seq<u8>, post: Seq<u8>)
    requires
        forall|i: int| 0 <= i < parts.len() ==> (#[trigger] parts[i]).len() <= u32::MAX,
        forall|i: int, j: int|
            0 <= i < parts.len() && 0 <= j < parts[i].len() ==> graph_op(#[trigger] parts[i][j]),
    ensures
        decode_fragments(pre + encode_fragments(parts) + post, pre.len() as int, parts.len())
            == Ok::<(Seq<Seq<RpnOp>>, int), FormatError>(
            (parts, (pre.len() + encode_fragments(parts).len()) as int),
        ),
    decreases parts.len(),
{
    if parts.len() == 0 {
        assert(parts =~= Seq::<Seq<RpnOp>>::empty());
    } else {
        let init = parts.drop_last();
        let last = parts.last();
        let tail = le32(last.len() as u32) + encode_ops(last);
        assert(pre + encode_fragments(parts) + post =~= pre + encode_fragments(init) + (tail
            + post));
        lemma_decode_encode_fragments(init, pre, tail + post);
        let b = pre + encode_fragments(parts) + post;
        let o = (pre.len() + encode_fragments(init).len()) as int;
        assert(b =~= (pre + encode_fragments(init)) + le32(last.len() as u32) + (encode_ops(last)
            + post));
        lemma_le32_roundtrip(last.len() as u32, pre + encode_fragments(init), encode_ops(last) + post);
        assert(b =~= (pre + encode_fragments(init) + le32(last.len() as u32)) + encode_ops(last)
            + post);
        assert forall|j: int| 0 <= j < last.len() implies graph_op(#[trigger] last[j]) by {
            assert(parts[parts.len() - 1] == last);
        }
        lemma_decode_encode_graph_ops(last, pre + encode_fragments(init) + le32(last.len() as u32), post);
        assert(init.push(last) =~= parts);
    }
}

impl BmlGraph {
    /// Creates an empty graph with the given threshold.
    pub fn new(threshold: usize) -> (g: Self)
        ensures
            g.fragments@ == Seq::<Fragment>::empty(),
            g.threshold == threshold,
    {
        BmlGraph { fragments: Vec::new(), threshold }
    }

    /// Number of fragments.
    pub fn num_fragments(&self) -> (n: usize)
        ensures
            n == self.fragments@.len(),
    {
        self.fragments.len()
    }

    /// Total size of the graph in bytes.
    pub fn total_byte_size(&self) -> (n: usize)
        requires
            total_len(frag_seqs(self.fragments@)) * op_size() <= usize::MAX,
        ensures
            n == total_len(frag_seqs(self.fragments@)) * op_size(),
    {
        let ghost parts = frag_seqs(self.fragments@);
        let ghost total = total_len(parts);
        let mut sum: usize = 0;
        let mut i: usize = 0;
        assert(parts.subrange(0, 0) =~= Seq::<Seq<RpnOp>>::empty());
        assert(total_len(parts.subrange(0, 0)) == 0);
        assert(0nat * op_size() == 0) by (nonlinear_arith);
        while i < self.fragments.len()
            invariant
                parts == frag_seqs(self.fragments@),
                total == total_len(parts),
                total * op_size() <= usize::MAX,
                i <= self.fragments@.len(),
                sum == total_len(parts.subrange(0, i as int)) * op_size(),
            decreases self.fragments@.len() - i,
        {
            proof {
                assert(parts.subrange(0, i + 1).drop_last() =~= parts.subrange(0, i as int));
                lemma_total_len_prefix(parts, i as int + 1);
                lemma_mul_mono(total_len(parts.subrange(0, i + 1)), total, op_size());
                let a = total_len(parts.subrange(0, i as int));
                let l = parts[i as int].len();
                assert((a + l) * op_size() == a * op_size() + l * op_size()) by (nonlinear_arith);
            }
            sum = sum + self.fragments[i].byte_size();
            i += 1;
        }
        assert(parts.subrange(0, i as int) =~= parts);
        sum
    }

    /// `true` iff every fragment fits the threshold.
    pub fn all_fragments_under_threshold(&self) -> (b: bool)
        ensures
            b == (forall|i: int|
                0 <= i < self.fragments@.len() ==> (#[trigger] self.fragments@[i]).ops@.len()
                    * op_size() <= self.threshold),
    {
        let s = std::mem::size_of::<RpnOp>();
        let mut i: usize = 0;
        while i < self.fragments.len()
            invariant
                s == op_size(),
                i <= self.fragments@.len(),
                forall|j: int|
                    0 <= j < i ==> (#[trigger] self.fragments@[j]).ops@.len() * op_size()
                        <= self.threshold,
            decreases self.fragments@.len() - i,
        {
            match self.fragments[i].ops.len().checked_mul(s) {
                Some(size) => {
                    if size > self.threshold {
                        return false;
                    }
                },
                None => {
                    return false;
                },
            }
            i += 1;
        }
        true
    }

    /// Serializes the graph to `.bmlgraph` bytes. Counts are written as
    /// `u32` (truncated if larger).
    pub fn serialize(&self) -> (bytes: Vec<u8>)
        ensures
            bytes@ == serialize_spec(frag_seqs(self.fragments@)),
    {
        let ghost parts = frag_seqs(self.fragments@);
        let mut bytes: Vec<u8> = Vec::new();
        push_u32_le(&mut bytes, BMLGRAPH_MAGIC);
        push_u32_le(&mut bytes, BMLGRAPH_VERSION);
        push_u32_le(&mut bytes, self.fragments.len() as u32);
        let ghost header = bytes@;
        let mut i: usize = 0;
        while i < self.fragments.len()
            invariant
                parts == frag_seqs(self.fragments@),
                i <= self.fragments@.len(),
                header == le32(BMLGRAPH_MAGIC) + le32(BMLGRAPH_VERSION) + le32(
                    parts.len() as u32,
                ),
                bytes@ == header + encode_fragments(parts.subrange(0, i as int)),
            decreases self.fragments@.len() - i,
        {
            let fragment = &self.fragments[i];
            push_u32_le(&mut bytes, fragment.ops.len() as u32);
            encode_ops_into(fragment.ops.as_slice(), &mut bytes);
            assert(parts.subrange(0, i + 1).drop_last() =~= parts.subrange(0, i as int));
            assert(bytes@ =~= header + encode_fragments(parts.subrange(0, i + 1)));
            i += 1;
        }
        assert(parts.subrange(0, i as int) =~= parts);
        bytes
    }

    /// Deserializes a graph from `.bmlgraph` bytes, with the given threshold.
    pub fn deserialize(bytes: &[u8], threshold: usize) -> (r: Result<Self, FormatError>)
        ensures
            match r {
                Ok(g) => deserialize_spec(bytes@) == Ok::<Seq<Seq<RpnOp>>, FormatError>(
                    frag_seqs(g.fragments@),
                ) && g.threshold == threshold,
                Err(e) => deserialize_spec(bytes@) == Err::<Seq<Seq<RpnOp>>, FormatError>(e),
            },
    {
        if bytes.len() < 12 {
            return Err(FormatError::TooSmall);
        }
        let magic = read_u32_le(bytes, 0);
        if magic != BMLGRAPH_MAGIC {
            return Err(FormatError::BadMagic(magic));
        }
        let version = read_u32_le(bytes, 4);
        if version != BMLGRAPH_VERSION {
            return Err(FormatError::BadVersion(version));
        }
        let num_fragments = read_u32_le(bytes, 8);
        let mut offset: usize = 12;
        let mut fragments: Vec<Fragment> = Vec::new();
        let mut k: u32 = 0;
        assert(frag_seqs(fragments@) =~= Seq::<Seq<RpnOp>>::empty());
        while k < num_fragments
            invariant
                k <= num_fragments,
                num_fragments == read_le32(bytes@, 8),
                bytes@.len() >= 12,
                read_le32(bytes@, 0) == BMLGRAPH_MAGIC,
                read_le32(bytes@, 4) == BMLGRAPH_VERSION,
                decode_fragments(bytes@, 12, k as nat) == Ok::<
                    (Seq<Seq<RpnOp>>, int),
                    FormatError,
                >((frag_seqs(fragments@), offset as int)),
            decreases num_fragments - k,
        {
            if bytes.len() < 4 || offset > bytes.len() - 4 {
                proof {
                    assert(decode_fragments(bytes@, 12, (k + 1) as nat) == Err::<
                        (Seq<Seq<RpnOp>>, int),
                        FormatError,
                    >(FormatError::TruncatedLength));
                    lemma_decode_fragments_err_propagates(
                        bytes@,
                        12,
                        (k + 1) as nat,
                        num_fragments as nat,
                    );
                    assert(decode_fragments(bytes@, 12, num_fragments as nat) == Err::<
                        (Seq<Seq<RpnOp>>, int),
                        FormatError,
                    >(FormatError::TruncatedLength));
                }
                return Err(FormatError::TruncatedLength);
            }
            let num_ops = read_u32_le(bytes, offset);
            match decode_graph_ops_at(bytes, offset + 4, num_ops) {
                Err(e) => {
                    proof {
                        assert(decode_fragments(bytes@, 12, (k + 1) as nat) == Err::<
                            (Seq<Seq<RpnOp>>, int),
                            FormatError,
                        >(e));
                        lemma_decode_fragments_err_propagates(
                            bytes@,
                            12,
                            (k + 1) as nat,
                            num_fragments as nat,
                        );
                    }
                    return Err(e);
                },
                Ok((ops, o)) => {
                    let ghost before = fragments@;
                    fragments.push(Fragment { ops });
                    assert(frag_seqs(fragments@) =~= frag_seqs(before).push(ops@));
                    offset = o;
                },
            }
            k += 1;
        }
        Ok(BmlGraph { fragments, threshold })
    }
}

/// The first `k` parts hold as many instructions as the first `k - 1`
/// plus the `k`-th, and never more than all of them.
proof fn lemma_total_len_prefix(parts: Seq<Seq<RpnOp>>, k: int)
    requires
        0 < k <= parts.len(),
    ensures
        total_len(parts.subrange(0, k)) == total_len(parts.subrange(0, k - 1)) + parts[k - 1].len(),
        total_len(parts.subrange(0, k)) <= total_len(parts),
    decreases parts.len() - k,
{
    assert(parts.subrange(0, k).drop_last() =~= parts.subrange(0, k - 1));
    if k < parts.len() {
        lemma_total_len_prefix(parts, k + 1);
    } else {
        assert(parts.subrange(0, k) =~= parts);
    }
}

/// Cuts a program into fragments that fit the cache threshold, greedily:
/// instructions are added to the current fragment until the next one
/// would push it over the threshold. An instruction is never split.
pub fn fragment_program(program: &RpnProgram, threshold: usize) -> (graph: BmlGraph)
    ensures
        graph.threshold == threshold,
        greedy_partition(frag_seqs(graph.fragments@), program.ops@, threshold as nat),
{
    let mut graph = BmlGraph::new(threshold);
    let mut current = Fragment::new();
    let sz = std::mem::size_of::<RpnOp>();
    let mut i: usize = 0;
    while i < program.ops.len()
        invariant
            sz == op_size(),
            graph.threshold == threshold,
            i <= program.ops@.len(),
            concat_all(frag_seqs(graph.fragments@)) + current.ops@ == program.ops@.subrange(
                0,
                i as int,
            ),
            current.ops@.len() == 0 <==> i == 0,
            current.ops@.len() == 1 || current.ops@.len() * op_size() <= threshold,
            forall|j: int|
                0 <= j < graph.fragments@.len() ==> (#[trigger] graph.fragments@[j]).ops@.len()
                    >= 1 && (graph.fragments@[j].ops@.len() == 1 || graph.fragments@[j].ops@.len()
                    * op_size() <= threshold) && (graph.fragments@[j].ops@.len() + 1) * op_size()
                    > threshold,
        decreases program.ops@.len() - i,
    {
        let op = program.ops[i];
        proof {
            lemma_mul_succ(current.ops@.len(), op_size());
            if current.ops@.len() == 1 {
                assert(1 * op_size() == op_size());
            }
        }
        if (sz > threshold || current.byte_size() > threshold - sz) && !current.is_empty() {
            let ghost before = graph.fragments@;
            graph.fragments.push(current);
            current = Fragment::new();
            proof {
                assert(frag_seqs(graph.fragments@).drop_last() =~= frag_seqs(before));
            }
        }
        current.push(op);
        proof {
            lemma_mul_succ(0, op_size());
            assert(program.ops@.subrange(0, i + 1) =~= program.ops@.subrange(0, i as int).push(
                op,
            ));
        }
        i += 1;
    }
    if !current.is_empty() {
        let ghost before = graph.fragments@;
        graph.fragments.push(current);
        proof {
            assert(frag_seqs(graph.fragments@).drop_last() =~= frag_seqs(before));
        }
    } else {
        assert(current.ops@ =~= Seq::<RpnOp>::empty());
    }
    assert(program.ops@.subrange(0, i as int) =~= program.ops@);
    graph
}

/// Deserializing the bytes of a serialized graph gives its fragments back,
/// provided the counts fit the `u32` fields of the format and every
/// instruction is one of the format's six.
#[verifier::spinoff_prover]
#[verifier::rlimit(40)]
pub proof fn law_serialize_deserialize_roundtrip(parts: Seq<Seq<RpnOp>>)
    requires
        parts.len() <= u32::MAX,
        forall|i: int| 0 <= i < parts.len() ==> (#[trigger] parts[i]).len() <= u32::MAX,
        forall|i: int, j: int|
            0 <= i < parts.len() && 0 <= j < parts[i].len() ==> graph_op(#[trigger] parts[i][j]),
    ensures
        deserialize_spec(serialize_spec(parts)) == Ok::<Seq<Seq<RpnOp>>, FormatError>(parts),
{
    let e: Seq<u8> = Seq::empty();
    let b = serialize_spec(parts);
    let body = encode_fragments(parts);
    let m = le32(BMLGRAPH_MAGIC);
    let v = le32(BMLGRAPH_VERSION);
    let n = le32(parts.len() as u32);
    assert(b =~= e + m + (v + n + body));
    lemma_le32_roundtrip(BMLGRAPH_MAGIC, e, v + n + body);
    assert(b =~= m + v + (n + body));
    lemma_le32_roundtrip(BMLGRAPH_VERSION, m, n + body);
    assert(b =~= (m + v) + n + body);
    lemma_le32_roundtrip(parts.len() as u32, m + v, body);
    assert(b =~= (m + v + n) + body + e);
    lemma_decode_encode_fragments(parts, m + v + n, e);
}

/// When the threshold can hold at least one instruction, every fragment of
/// a greedy cut fits the threshold.
pub proof fn law_fragments_fit_threshold(parts: Seq<Seq<RpnOp>>, ops: Seq<RpnOp>, threshold: nat)
    requires
        greedy_partition(parts, ops, threshold),
        op_size() <= threshold,
    ensures
        forall|i: int| 0 <= i < parts.len() ==> (#[trigger] parts[i]).len() * op_size() <= threshold,
{
    assert forall|i: int| 0 <= i < parts.len() implies (#[trigger] parts[i]).len() * op_size()
        <= threshold by {
        if parts[i].len() == 1 {
            assert(1 * op_size() == op_size());
        }
    }
}

impl Default for Fragment {
    fn default() -> (f: Self)
        ensures
            f.ops@ == Seq::<RpnOp>::empty(),
    {
        Fragment::new()
    }
}

} // verus!
