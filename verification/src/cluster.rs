//! Decisions of the coordinator and of the worker nodes of a distributed
//! run: which fragment goes to which node, how hidden states travel, and
//! how a worker answers each message. Hidden-state values are held as the
//! bit patterns of their `f64` values.
use crate::codec::{le32, le64, push_u32_le, push_u64_le, read_le32, read_le64, read_u32_le, read_u64_le, FormatError};
use crate::distributed::{decode_wire, encode_wire, wire_bytes, wire_spec, DistributedFragment, FragmentView};
use crate::net::{Message, MsgType};
use crate::text::{trim, trimmed_string};
use vstd::prelude::*;

verus! {

/// Bit pattern of the `f64` value `1.0`.
pub const F64_ONE_BITS: u64 = 0x3FF0000000000000;

/// Bit pattern of the `f64` quiet NaN that `f64::NAN` denotes.
pub const F64_NAN_BITS: u64 = 0x7FF8000000000000;

/// The fragment that node `i` receives: node `i` takes fragment `i`, and
/// nodes beyond the last fragment start over from the first.
pub fn fragment_for_node(i: usize, n_fragments: usize) -> (f: u32)
    requires
        n_fragments > 0,
    ensures
        f == (i % n_fragments) as u32,
{
    let k = if i < n_fragments {
        proof {
            vstd::arithmetic::div_mod::lemma_small_mod(i as nat, n_fragments as nat);
        }
        i
    } else {
        i % n_fragments
    };
    #[verifier::truncate]
    let f = k as u32;
    f
}

/// The pieces of `s` between commas, in order.
pub open spec fn comma_pieces(s: Seq<char>) -> Seq<Seq<char>>
    decreases s.len(),
{
    if s.len() == 0 {
        seq![Seq::empty()]
    } else {
        let p = comma_pieces(s.drop_last());
        if s.last() == ',' {
            p.push(Seq::empty())
        } else {
            p.update(p.len() - 1, p.last().push(s.last()))
        }
    }
}

proof fn lemma_comma_pieces_nonempty(s: Seq<char>)
    ensures
        comma_pieces(s).len() >= 1,
    decreases s.len(),
{
    if s.len() > 0 {
        lemma_comma_pieces_nonempty(s.drop_last());
    }
}

/// The node addresses of a comma-separated list, each trimmed.
pub open spec fn node_list_spec(s: Seq<char>) -> Seq<Seq<char>> {
    comma_pieces(s).map_values(|p: Seq<char>| trim(p))
}

/// Splits a comma-separated list of node addresses; each address is
/// trimmed (empty pieces stay, as empty addresses).
pub fn parse_node_list(s: &str) -> (nodes: Vec<String>)
    ensures
        nodes@.map_values(|a: String| a@) == node_list_spec(s@),
{
    let n = s.unicode_len();
    let mut nodes: Vec<String> = Vec::new();
    let mut start: usize = 0;
    let mut i: usize = 0;
    while i < n
        invariant
            n == s@.len(),
            start <= i <= n,
            comma_pieces(s@.subrange(0, i as int)).len() == nodes@.len() + 1,
            forall|k: int|
                0 <= k < nodes@.len() ==> trim(comma_pieces(s@.subrange(0, i as int))[k])
                    == #[trigger] nodes@[k]@,
            comma_pieces(s@.subrange(0, i as int)).last() == s@.subrange(start as int, i as int),
        decreases n - i,
    {
        let c = s.get_char(i);
        let ghost pre = s@.subrange(0, i as int);
        let ghost cur = s@.subrange(0, i + 1);
        assert(cur.drop_last() =~= pre);
        assert(cur.last() == c);
        if c == ',' {
            let piece = s.substring_char(start, i);
            let ghost before = nodes@;
            nodes.push(trimmed_string(piece));
            start = i + 1;
            proof {
                assert(s@.subrange(start as int, i + 1) =~= Seq::<char>::empty());
                assert forall|k: int| 0 <= k < nodes@.len() implies trim(comma_pieces(cur)[k])
                    == #[trigger] nodes@[k]@ by {
                    if k < before.len() {
                        assert(comma_pieces(cur)[k] == comma_pieces(pre)[k]);
                    }
                }
            }
        } else {
            proof {
                assert(s@.subrange(start as int, i + 1) =~= s@.subrange(start as int, i as int).push(c));
                lemma_comma_pieces_nonempty(pre);
                assert forall|k: int| 0 <= k < nodes@.len() implies trim(comma_pieces(cur)[k])
                    == #[trigger] nodes@[k]@ by {
                    assert(comma_pieces(cur)[k] == comma_pieces(pre)[k]);
                }
            }
        }
        i = i + 1;
    }
    let piece = s.substring_char(start, n);
    nodes.push(trimmed_string(piece));
    proof {
        assert(s@.subrange(0, n as int) =~= s@);
        let v = nodes@.map_values(|a: String| a@);
        assert(v =~= node_list_spec(s@));
    }
    nodes
}

// ---------------------------------------------------------------------------
// Hidden states on the wire
// ---------------------------------------------------------------------------

/// Values written one after the other, each as 8 little-endian bytes.
pub open spec fn values_bytes(vs: Seq<u64>) -> Seq<u8>
    decreases vs.len(),
{
    if vs.len() == 0 {
        Seq::empty()
    } else {
        values_bytes(vs.drop_last()) + le64(vs.last())
    }
}

/// Payload of a batch message: a `u32` count, then the values.
pub open spec fn batch_payload(count: u32, vs: Seq<u64>) -> Seq<u8> {
    le32(count) + values_bytes(vs)
}

/// The `n` values stored at `off`, 8 bytes each.
pub open spec fn read_values(b: Seq<u8>, off: int, n: nat) -> Seq<u64> {
    Seq::new(n, |i: int| read_le64(b, off + 8 * i))
}

/// The payload of a batch message: `count`, then `values`.
pub fn encode_batch(count: u32, values: &[u64]) -> (bytes: Vec<u8>)
    ensures
        bytes@ == batch_payload(count, values@),
{
    let mut bytes: Vec<u8> = Vec::new();
    push_u32_le(&mut bytes, count);
    let mut i: usize = 0;
    while i < values.len()
        invariant
            i <= values@.len(),
            bytes@ == le32(count) + values_bytes(values@.subrange(0, i as int)),
        decreases values@.len() - i,
    {
        push_u64_le(&mut bytes, values[i]);
        assert(values@.subrange(0, i + 1).drop_last() =~= values@.subrange(0, i as int));
        assert(bytes@ =~= le32(count) + values_bytes(values@.subrange(0, i + 1)));
        i += 1;
    }
    assert(values@.subrange(0, i as int) =~= values@);
    bytes
}

fn take_values(bytes: &[u8], off: usize, n: usize) -> (vs: Vec<u64>)
    requires
        off + 8 * n <= bytes@.len(),
    ensures
        vs@ == read_values(bytes@, off as int, n as nat),
{
    let mut vs: Vec<u64> = Vec::new();
    let mut i: usize = 0;
    let mut o: usize = off;
    let len = bytes.len();
    while i < n
        invariant
            len == bytes@.len(),
            off + 8 * n <= bytes@.len(),
            i <= n,
            o == off + 8 * i,
            vs@ == read_values(bytes@, off as int, i as nat),
        decreases n - i,
    {
        vs.push(read_u64_le(bytes, o));
        assert(vs@ =~= read_values(bytes@, off as int, (i + 1) as nat));
        i += 1;
        o += 8;
    }
    vs
}

/// The hidden state a worker receives: the first `n_embd` values of a
/// batch request, or `None` when the payload is too short for them.
pub open spec fn batch_request_spec(b: Seq<u8>, n_embd: u32) -> Option<Seq<u64>> {
    if b.len() < 4 + 8 * n_embd {
        None
    } else {
        Some(read_values(b, 4, n_embd as nat))
    }
}

/// Reads the hidden state of a batch request (see [`batch_request_spec`]).
pub fn decode_batch_request(payload: &[u8], n_embd: u32) -> (r: Option<Vec<u64>>)
    ensures
        match r {
            Some(vs) => batch_request_spec(payload@, n_embd) == Some(vs@),
            None => batch_request_spec(payload@, n_embd) is None,
        },
{
    if (payload.len() as u64) < 4 + 8 * (n_embd as u64) {
        return None;
    }
    Some(take_values(payload, 4, n_embd as usize))
}

/// The hidden state a coordinator reads from a worker's reply: for a
/// `BatchResult` of at least 4 bytes, as many values as its count says
/// and its payload holds; otherwise `None`.
pub open spec fn batch_result_spec(t: MsgType, b: Seq<u8>) -> Option<Seq<u64>> {
    if t == MsgType::BatchResult && b.len() >= 4 {
        let n = read_le32(b, 0) as int;
        let fit = (b.len() - 4) / 8;
        Some(read_values(b, 4, (if n < fit { n } else { fit }) as nat))
    } else {
        None
    }
}

/// Reads the hidden state of a worker's reply (see [`batch_result_spec`]).
pub fn decode_batch_result(reply: &Message) -> (r: Option<Vec<u64>>)
    ensures
        match r {
            Some(vs) => batch_result_spec(reply.msg_type, reply.payload@) == Some(vs@),
            None => batch_result_spec(reply.msg_type, reply.payload@) is None,
        },
{
    if reply.msg_type != MsgType::BatchResult || reply.payload.len() < 4 {
        return None;
    }
    let b = reply.payload.as_slice();
    let n = read_u32_le(b, 0) as usize;
    let fit = (b.len() - 4) / 8;
    let k = if n < fit {
        n
    } else {
        fit
    };
    Some(take_values(b, 4, k))
}

/// Reading back the values of a batch payload gives them back.
pub proof fn law_batch_roundtrip(vs: Seq<u64>)
    requires
        vs.len() <= u32::MAX,
    ensures
        batch_request_spec(batch_payload(vs.len() as u32, vs), vs.len() as u32) == Some(vs),
        batch_result_spec(MsgType::BatchResult, batch_payload(vs.len() as u32, vs)) == Some(vs),
{
    let b = batch_payload(vs.len() as u32, vs);
    lemma_values_bytes_len(vs);
    assert forall|i: int| 0 <= i < vs.len() implies read_le64(b, 4 + 8 * i) == vs[i] by {
        lemma_values_bytes_at(vs, i, le32(vs.len() as u32));
    }
    assert(read_values(b, 4, vs.len()) =~= vs);
    crate::codec::lemma_le32_roundtrip(vs.len() as u32, Seq::empty(), values_bytes(vs));
    assert(b =~= Seq::<u8>::empty() + le32(vs.len() as u32) + values_bytes(vs));
}

proof fn lemma_values_bytes_len(vs: Seq<u64>)
    ensures
        values_bytes(vs).len() == 8 * vs.len(),
    decreases vs.len(),
{
    if vs.len() > 0 {
        lemma_values_bytes_len(vs.drop_last());
    }
}

proof fn lemma_values_bytes_at(vs: Seq<u64>, i: int, pre: Seq<u8>)
    requires
        0 <= i < vs.len(),
    ensures
        read_le64(pre + values_bytes(vs), pre.len() + 8 * i) == vs[i],
    decreases vs.len(),
{
    lemma_values_bytes_len(vs.drop_last());
    if i == vs.len() - 1 {
        assert(pre + values_bytes(vs) =~= (pre + values_bytes(vs.drop_last())) + le64(vs.last())
            + Seq::<u8>::empty());
        crate::codec::lemma_le64_roundtrip(
            vs.last(),
            pre + values_bytes(vs.drop_last()),
            Seq::empty(),
        );
    } else {
        lemma_values_bytes_at(vs.drop_last(), i, pre);
        let b1 = pre + values_bytes(vs.drop_last());
        let b2 = pre + values_bytes(vs);
        assert(b2 =~= b1 + le64(vs.last()));
        let o = pre.len() + 8 * i;
        assert(b2[o] == b1[o] && b2[o + 1] == b1[o + 1] && b2[o + 2] == b1[o + 2] && b2[o + 3]
            == b1[o + 3] && b2[o + 4] == b1[o + 4] && b2[o + 5] == b1[o + 5] && b2[o + 6] == b1[o
            + 6] && b2[o + 7] == b1[o + 7]);
    }
}

// ---------------------------------------------------------------------------
// Worker
// ---------------------------------------------------------------------------

/// What a worker holds between messages.
pub struct WorkerState {
    /// The fragment it runs, once one was loaded.
    pub fragment: Option<DistributedFragment>,
}

/// What a worker does with a message.
pub enum WorkerAction {
    /// Send this reply.
    Reply(Message),
    /// The fragment could not be read (why); send this reply.
    Refused(FormatError, Message),
    /// Run the loaded layers on this hidden state, then reply with
    /// [`batch_result_message`].
    RunLayers(Vec<u64>),
    /// This message type is not handled by a worker.
    Unsupported(MsgType),
}

/// `m` is a message of type `t` with payload `p`.
pub open spec fn is_message(m: Message, t: MsgType, p: Seq<u8>) -> bool {
    m.msg_type == t && m.payload@ == p
}

/// The reply of a worker that ran its layers: the resulting hidden state.
pub fn batch_result_message(values: &[u64]) -> (m: Message)
    ensures
        is_message(m, MsgType::BatchResult, batch_payload(values@.len() as u32, values@)),
{
    #[verifier::truncate]
    let n = values.len() as u32;
    Message::new(MsgType::BatchResult, encode_batch(n, values))
}

fn message_with_bits(t: MsgType, bits: u64) -> (m: Message)
    ensures
        is_message(m, t, le64(bits)),
{
    let mut p: Vec<u8> = Vec::new();
    push_u64_le(&mut p, bits);
    assert(p@ =~= le64(bits));
    Message::new(t, p)
}

fn empty_message(t: MsgType) -> (m: Message)
    ensures
        is_message(m, t, Seq::empty()),
{
    Message::new(t, Vec::new())
}

/// How a worker answers `msg`: a health check with `[1]`; a fragment
/// (wire form) by loading it and replying `1.0`, or `NaN` when it cannot
/// be read; a batch request, when a fragment is loaded and the payload
/// holds its `n_embd` values, by running its layers (otherwise an empty
/// batch result); a steal request with the loaded fragment's wire form
/// (or nothing). Other message types are not for workers.
pub fn worker_step(state: &mut WorkerState, msg: Message) -> (action: WorkerAction)
    ensures
        msg.msg_type == MsgType::HealthCheck ==> *final(state) == *old(state) && (action matches WorkerAction::Reply(m) && is_message(m, MsgType::HealthCheck, seq![1u8])),
        msg.msg_type == MsgType::ExecuteFragment ==> match wire_spec(msg.payload@) {
            Ok(f) => (final(state).fragment matches Some(g) && g@ == f) && (action matches WorkerAction::Reply(m) && is_message(m, MsgType::ReportResult, le64(F64_ONE_BITS))),
            Err(e) => *final(state) == *old(state) && (action matches WorkerAction::Refused(e2, m) && e2 == e && is_message(m, MsgType::ReportResult, le64(F64_NAN_BITS))),
        },
        msg.msg_type == MsgType::BatchRequest ==> *final(state) == *old(state) && match old(state).fragment {
            Some(f) => match batch_request_spec(msg.payload@, f.config.n_embd) {
                Some(h) => action matches WorkerAction::RunLayers(v) && v@ == h,
                None => action matches WorkerAction::Reply(m) && is_message(m, MsgType::BatchResult, Seq::empty()),
            },
            None => action matches WorkerAction::Reply(m) && is_message(m, MsgType::BatchResult, Seq::empty()),
        },
        msg.msg_type == MsgType::StealWork ==> *final(state) == *old(state) && match old(state).fragment {
            Some(f) => action matches WorkerAction::Reply(m) && is_message(m, MsgType::StealWork, wire_bytes(f@)),
            None => action matches WorkerAction::Reply(m) && is_message(m, MsgType::StealWork, Seq::empty()),
        },
        (msg.msg_type == MsgType::ReportResult || msg.msg_type == MsgType::BatchResult) ==> *final(state) == *old(state) && action == WorkerAction::Unsupported(msg.msg_type),
{
    match msg.msg_type {
        MsgType::HealthCheck => {
            let mut p: Vec<u8> = Vec::new();
            p.push(1u8);
            assert(p@ =~= seq![1u8]);
            WorkerAction::Reply(Message::new(MsgType::HealthCheck, p))
        },
        MsgType::ExecuteFragment => match decode_wire(msg.payload.as_slice()) {
            Ok(f) => {
                state.fragment = Some(f);
                WorkerAction::Reply(message_with_bits(MsgType::ReportResult, F64_ONE_BITS))
            },
            Err(e) => WorkerAction::Refused(e, message_with_bits(MsgType::ReportResult, F64_NAN_BITS)),
        },
        MsgType::BatchRequest => match &state.fragment {
            Some(f) => match decode_batch_request(msg.payload.as_slice(), f.config.n_embd) {
                Some(h) => WorkerAction::RunLayers(h),
                None => WorkerAction::Reply(empty_message(MsgType::BatchResult)),
            },
            None => WorkerAction::Reply(empty_message(MsgType::BatchResult)),
        },
        MsgType::StealWork => match &state.fragment {
            Some(f) => WorkerAction::Reply(Message::new(MsgType::StealWork, encode_wire(f))),
            None => WorkerAction::Reply(empty_message(MsgType::StealWork)),
        },
        t => WorkerAction::Unsupported(t),
    }
}

} // verus!
