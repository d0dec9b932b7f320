//! Files shared between workers of one machine.
//!
//! A coordinator writes a fragment to a file in shared memory and the
//! workers read it back. The file holds `[u32 n_ops][ops...]`, with the
//! instruction encoding of the `codec` module. Workers append their
//! results, as little-endian `f64` bit patterns, to a result file of
//! their own. `ShmChannel` names the files of one session.
use crate::codec::{
    FormatError,
    le64,
    lemma_le64_roundtrip,
    push_u64_le,
    read_le64,
    read_u64_le,
    decode_ops,
    encode_ops,
    encode_ops_into,
    decode_ops_at,
    le32,
    lemma_decode_encode_ops,
    lemma_le32_roundtrip,
    push_u32_le,
    read_le32,
    read_u32_le,
};
use crate::fragment::Fragment;
use crate::rpn::RpnOp;
use crate::text::{decimal, decimal_string_u64, str_eq};
use vstd::prelude::*;

verus! {

/// Bytes of a shared fragment file; the instruction count is written as
/// `u32` (truncated if larger).
pub open spec fn shm_bytes(ops: Seq<RpnOp>) -> Seq<u8> {
    le32(ops.len() as u32) + encode_ops(ops)
}

/// The instructions a shared fragment file holds, or why it holds none.
/// Bytes after the last instruction are ignored.
pub open spec fn shm_decode_spec(b: Seq<u8>) -> Result<Seq<RpnOp>, FormatError> {
    if b.len() < 4 {
        Err(FormatError::TooSmall)
    } else {
        match decode_ops(b, 4, read_le32(b, 0) as nat) {
            Err(e) => Err(e),
            Ok((ops, _)) => Ok(ops),
        }
    }
}

/// The bytes of the shared file of `fragment`.
pub fn encode_shm_fragment(fragment: &Fragment) -> (bytes: Vec<u8>)
    ensures
        bytes@ == shm_bytes(fragment.ops@),
{
    let mut bytes: Vec<u8> = Vec::new();
    #[verifier::truncate]
    let n = fragment.ops.len() as u32;
    push_u32_le(&mut bytes, n);
    encode_ops_into(fragment.ops.as_slice(), &mut bytes);
    assert(bytes@ =~= shm_bytes(fragment.ops@));
    bytes
}

/// Reads the fragment of a shared file.
pub fn decode_shm_fragment(bytes: &[u8]) -> (r: Result<Fragment, FormatError>)
    ensures
        match r {
            Ok(f) => shm_decode_spec(bytes@) == Ok::<Seq<RpnOp>, FormatError>(f.ops@),
            Err(e) => shm_decode_spec(bytes@) == Err::<Seq<RpnOp>, FormatError>(e),
        },
{
    if bytes.len() < 4 {
        return Err(FormatError::TooSmall);
    }
    let n = read_u32_le(bytes, 0);
    match decode_ops_at(bytes, 4, n) {
        Err(e) => Err(e),
        Ok((ops, _)) => Ok(Fragment { ops }),
    }
}

/// Reading a shared fragment file gives back the fragment that was
/// written, provided its instruction count fits the `u32` field.
pub proof fn law_shm_roundtrip(ops: Seq<RpnOp>, trailing: Seq<u8>)
    requires
        ops.len() <= u32::MAX,
    ensures
        shm_decode_spec(shm_bytes(ops) + trailing) == Ok::<Seq<RpnOp>, FormatError>(ops),
{
    let b = shm_bytes(ops) + trailing;
    lemma_le32_roundtrip(ops.len() as u32, Seq::empty(), encode_ops(ops) + trailing);
    assert(b =~= Seq::<u8>::empty() + le32(ops.len() as u32) + (encode_ops(ops) + trailing));
    lemma_decode_encode_ops(ops, le32(ops.len() as u32), trailing);
    assert(b =~= le32(ops.len() as u32) + encode_ops(ops) + trailing);
}

/// Directory of shared memory.
pub fn shm_dir() -> (d: &'static str)
    ensures
        d@ == "/dev/shm"@,
{
    "/dev/shm"
}

/// Name of fragment file `id` of session `session`.
pub open spec fn fragment_file_name(session: u64, id: u64) -> Seq<char> {
    "bml_shm_"@ + decimal(session as nat) + "_"@ + decimal(id as nat) + ".bmlfrag"@
}

/// Name of the result file of worker `worker` in session `session`.
pub open spec fn result_file_name(session: u64, worker: u32) -> Seq<char> {
    "bml_shm_result_"@ + decimal(session as nat) + "_"@ + decimal(worker as nat) + ".dat"@
}

/// Start of the names of the fragment files of session `session`.
pub open spec fn session_prefix(session: u64) -> Seq<char> {
    "bml_shm_"@ + decimal(session as nat) + "_"@
}

/// Names the files of one session in a base directory.
#[derive(Debug)]
pub struct ShmChannel {
    base_dir: String,
    session_id: u64,
    counter: u64,
}

impl ShmChannel {
    /// Directory the files go to.
    pub closed spec fn dir(&self) -> Seq<char> {
        self.base_dir@
    }

    /// Session number.
    pub closed spec fn session(&self) -> u64 {
        self.session_id
    }

    /// Number of the next fragment file.
    pub closed spec fn next_id(&self) -> u64 {
        self.counter
    }

    /// A channel for session `session_id` whose files go to `base_dir`.
    pub fn with_base_dir(base_dir: String, session_id: u64) -> (c: Self)
        ensures
            c.dir() == base_dir@,
            c.session() == session_id,
            c.next_id() == 0,
    {
        ShmChannel { base_dir, session_id, counter: 0 }
    }

    /// Session number of the `serial`-th channel of process `process_id`.
    pub fn session_id_for(process_id: u32, serial: u64) -> (id: u64)
        requires
            process_id * 1_000_000 + serial <= u64::MAX,
        ensures
            id == process_id * 1_000_000 + serial,
    {
        process_id as u64 * 1_000_000 + serial
    }

    /// Whether the files go to `/dev/shm` (and not to a fallback
    /// directory).
    pub fn is_shm_available(&self) -> (b: bool)
        ensures
            b == (self.dir() == "/dev/shm"@),
    {
        str_eq(self.base_dir.as_str(), shm_dir())
    }

    /// Directory the files go to.
    pub fn base_dir(&self) -> (d: &str)
        ensures
            d@ == self.dir(),
    {
        self.base_dir.as_str()
    }

    /// Session number.
    pub fn session_id(&self) -> (id: u64)
        ensures
            id == self.session(),
    {
        self.session_id
    }

    /// Name of the next fragment file; the following one gets the next
    /// number (wrapping as the atomic counter does).
    pub fn next_fragment_file_name(&mut self) -> (name: String)
        ensures
            name@ == fragment_file_name(old(self).session(), old(self).next_id()),
            final(self).dir() == old(self).dir(),
            final(self).session() == old(self).session(),
            final(self).next_id() == old(self).next_id().wrapping_add(1),
    {
        let id = self.counter;
        self.counter = self.counter.wrapping_add(1);
        let mut name = String::from_str("bml_shm_");
        let s = decimal_string_u64(self.session_id);
        name.append(s.as_str());
        name.append("_");
        let d = decimal_string_u64(id);
        name.append(d.as_str());
        name.append(".bmlfrag");
        name
    }

    /// Name of the result file of worker `worker_id`.
    pub fn result_file_name(&self, worker_id: u32) -> (name: String)
        ensures
            name@ == result_file_name(self.session(), worker_id),
    {
        let mut name = String::from_str("bml_shm_result_");
        let s = decimal_string_u64(self.session_id);
        name.append(s.as_str());
        name.append("_");
        let d = decimal_string_u64(worker_id as u64);
        name.append(d.as_str());
        name.append(".dat");
        name
    }

    /// Whether the file called `name` is a fragment file of this session,
    /// one that cleaning up removes.
    pub fn is_session_file(&self, name: &str) -> (b: bool)
        ensures
            b == session_prefix(self.session()).is_prefix_of(name@),
    {
        let mut prefix = String::from_str("bml_shm_");
        let s = decimal_string_u64(self.session_id);
        prefix.append(s.as_str());
        prefix.append("_");
        starts_with(name, prefix.as_str())
    }
}

/// `s` begins with `prefix`.
fn starts_with(s: &str, prefix: &str) -> (b: bool)
    ensures
        b == prefix@.is_prefix_of(s@),
{
    let n = s.unicode_len();
    let m = prefix.unicode_len();
    if m > n {
        return false;
    }
    let mut i: usize = 0;
    while i < m
        invariant
            n == s@.len(),
            m == prefix@.len(),
            m <= n,
            i <= m,
            forall|j: int| 0 <= j < i ==> prefix@[j] == s@[j],
        decreases m - i,
    {
        if s.get_char(i) != prefix.get_char(i) {
            return false;
        }
        i = i + 1;
    }
    true
}

/// Bytes of a result file holding `results`, in the order they were
/// appended.
pub open spec fn results_bytes(results: Seq<u64>) -> Seq<u8>
    decreases results.len(),
{
    if results.len() == 0 {
        Seq::empty()
    } else {
        results_bytes(results.drop_last()) + le64(results.last())
    }
}

/// The results a result file holds: one per whole 8 bytes; a shorter
/// tail is ignored.
pub open spec fn decode_results_spec(b: Seq<u8>) -> Seq<u64> {
    Seq::new(b.len() / 8, |k: int| read_le64(b, 8 * k))
}

/// Bytes appended to a result file for one result.
pub fn encode_result(bits: u64) -> (bytes: Vec<u8>)
    ensures
        bytes@ == le64(bits),
{
    let mut bytes: Vec<u8> = Vec::new();
    push_u64_le(&mut bytes, bits);
    assert(bytes@ =~= le64(bits));
    bytes
}

/// The results a result file holds.
pub fn decode_results(bytes: &[u8]) -> (results: Vec<u64>)
    ensures
        results@ == decode_results_spec(bytes@),
{
    let n = bytes.len();
    let count = n / 8;
    let mut results: Vec<u64> = Vec::new();
    let mut k: usize = 0;
    while k < count
        invariant
            n == bytes@.len(),
            count == n / 8,
            k <= count,
            results@ == decode_results_spec(bytes@).subrange(0, k as int),
        decreases count - k,
    {
        assert(8 * k + 8 <= n) by (nonlinear_arith)
            requires
                k < count,
                count == n / 8,
        ;
        let x = read_u64_le(bytes, 8 * k);
        results.push(x);
        k = k + 1;
        assert(results@ =~= decode_results_spec(bytes@).subrange(0, k as int));
    }
    assert(results@ =~= decode_results_spec(bytes@));
    results
}

proof fn lemma_results_bytes_len(results: Seq<u64>)
    ensures
        results_bytes(results).len() == 8 * results.len(),
    decreases results.len(),
{
    if results.len() > 0 {
        lemma_results_bytes_len(results.drop_last());
    }
}

/// Reading a result file gives back every result appended to it, in
/// order.
pub proof fn law_results_append_only(results: Seq<u64>)
    ensures
        decode_results_spec(results_bytes(results)) == results,
    decreases results.len(),
{
    lemma_results_bytes_len(results);
    if results.len() > 0 {
        let init = results.drop_last();
        let p = results_bytes(init);
        let b = results_bytes(results);
        law_results_append_only(init);
        lemma_results_bytes_len(init);
        assert(b == p + le64(results.last()));
        assert forall|k: int| 0 <= k < init.len() implies #[trigger] decode_results_spec(b)[k] == init[k] by {
            assert(8 * k + 8 <= p.len());
            assert(b[8 * k] == p[8 * k]);
            assert(b[8 * k + 1] == p[8 * k + 1]);
            assert(b[8 * k + 2] == p[8 * k + 2]);
            assert(b[8 * k + 3] == p[8 * k + 3]);
            assert(b[8 * k + 4] == p[8 * k + 4]);
            assert(b[8 * k + 5] == p[8 * k + 5]);
            assert(b[8 * k + 6] == p[8 * k + 6]);
            assert(b[8 * k + 7] == p[8 * k + 7]);
            assert(decode_results_spec(p)[k] == init[k]);
            assert(read_le64(b, 8 * k) == read_le64(p, 8 * k));
        }
        lemma_le64_roundtrip(results.last(), p, Seq::empty());
        assert(p + le64(results.last()) + Seq::<u8>::empty() =~= b);
        assert(b.len() / 8 == results.len());
        assert(decode_results_spec(b) =~= results);
    }
}

} // verus!
