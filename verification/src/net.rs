//! Framing of the messages exchanged between BML nodes.
//!
//! A frame is `[u32 msg_type][u32 payload_len][payload]`, integers in
//! little-endian order. The message types are:
//!
//! | code | type | payload |
//! |---|---|---|
//! | 0 | `ExecuteFragment` | a serialized fragment |
//! | 1 | `ReportResult` | an `f64` result |
//! | 2 | `StealWork` | empty (request) / a fragment (response) |
//! | 3 | `HealthCheck` | empty (request) / status (response) |
//! | 4 | `BatchRequest` | a batch of inputs |
//! | 5 | `BatchResult` | the batch's outputs |
use crate::codec::{le32, le64, push_u32_le, read_le32, read_le64, read_u32_le, read_u64_le, lemma_le32_roundtrip};
use vstd::prelude::*;

verus! {

/// Message types of the protocol.
#[derive(Debug, Clone, Copy, PartialEq, Eq, Structural)]
pub enum MsgType {
    /// Execute a fragment.
    ExecuteFragment,
    /// Result of an execution.
    ReportResult,
    /// Take work from another node.
    StealWork,
    /// Is the node alive.
    HealthCheck,
    /// A batch to process.
    BatchRequest,
    /// The outputs of a batch.
    BatchResult,
}

/// Wire code of a message type.
pub open spec fn msg_code(t: MsgType) -> u32 {
    match t {
        MsgType::ExecuteFragment => 0,
        MsgType::ReportResult => 1,
        MsgType::StealWork => 2,
        MsgType::HealthCheck => 3,
        MsgType::BatchRequest => 4,
        MsgType::BatchResult => 5,
    }
}

/// The message type with wire code `v`, if any.
pub open spec fn msg_type_of(v: u32) -> Option<MsgType> {
    if v == 0 {
        Some(MsgType::ExecuteFragment)
    } else if v == 1 {
        Some(MsgType::ReportResult)
    } else if v == 2 {
        Some(MsgType::StealWork)
    } else if v == 3 {
        Some(MsgType::HealthCheck)
    } else if v == 4 {
        Some(MsgType::BatchRequest)
    } else if v == 5 {
        Some(MsgType::BatchResult)
    } else {
        None
    }
}

impl MsgType {
    /// The message type with wire code `v`, or `None` for an unknown code.
    pub fn from_u32(v: u32) -> (r: Option<Self>)
        ensures
            r == msg_type_of(v),
    {
        match v {
            0 => Some(MsgType::ExecuteFragment),
            1 => Some(MsgType::ReportResult),
            2 => Some(MsgType::StealWork),
            3 => Some(MsgType::HealthCheck),
            4 => Some(MsgType::BatchRequest),
            5 => Some(MsgType::BatchResult),
            _ => None,
        }
    }

    /// Wire code of the message type.
    pub fn to_u32(self) -> (v: u32)
        ensures
            v == msg_code(self),
    {
        match self {
            MsgType::ExecuteFragment => 0,
            MsgType::ReportResult => 1,
            MsgType::StealWork => 2,
            MsgType::HealthCheck => 3,
            MsgType::BatchRequest => 4,
            MsgType::BatchResult => 5,
        }
    }
}

/// A message: its type and payload.
#[derive(Debug, Clone)]
pub struct Message {
    /// Type of the message.
    pub msg_type: MsgType,
    /// Payload bytes.
    pub payload: Vec<u8>,
}

/// Frame of a message; the payload length is written as `u32`
/// (truncated if larger).
pub open spec fn frame(t: MsgType, payload: Seq<u8>) -> Seq<u8> {
    le32(msg_code(t)) + le32(payload.len() as u32) + payload
}

/// Why a frame header cannot be read.
#[derive(Debug, Clone, Copy, PartialEq, Eq, Structural)]
pub enum FrameError {
    /// Fewer than the 8 header bytes.
    TooShort,
    /// Unknown message type (the code read).
    UnknownType(u32),
    /// The payload is shorter than the header announces.
    TruncatedPayload,
}

/// What a frame header says: the type and the payload length, or why it
/// cannot be read.
pub open spec fn header_spec(b: Seq<u8>) -> Result<(MsgType, u32), FrameError> {
    if b.len() < 8 {
        Err(FrameError::TooShort)
    } else {
        match msg_type_of(read_le32(b, 0)) {
            None => Err(FrameError::UnknownType(read_le32(b, 0))),
            Some(t) => Ok((t, read_le32(b, 4))),
        }
    }
}

/// What a whole frame holds: the message, or why it holds none. Bytes
/// after the payload are ignored.
pub open spec fn frame_spec(b: Seq<u8>) -> Result<(MsgType, Seq<u8>), FrameError> {
    match header_spec(b) {
        Err(e) => Err(e),
        Ok((t, n)) => if 8 + n > b.len() {
            Err(FrameError::TruncatedPayload)
        } else {
            Ok((t, b.subrange(8, 8 + n)))
        },
    }
}

/// Reads a frame header: the message type and the payload length.
pub fn decode_header(header: &[u8]) -> (r: Result<(MsgType, u32), FrameError>)
    ensures
        r == header_spec(header@),
{
    if header.len() < 8 {
        return Err(FrameError::TooShort);
    }
    let code = read_u32_le(header, 0);
    match MsgType::from_u32(code) {
        None => Err(FrameError::UnknownType(code)),
        Some(t) => Ok((t, read_u32_le(header, 4))),
    }
}

impl Message {
    /// A message of the given type and payload.
    pub fn new(msg_type: MsgType, payload: Vec<u8>) -> (m: Self)
        ensures
            m.msg_type == msg_type,
            m.payload@ == payload@,
    {
        Message { msg_type, payload }
    }

    /// The framed bytes of the message.
    pub fn to_bytes(&self) -> (bytes: Vec<u8>)
        ensures
            bytes@ == frame(self.msg_type, self.payload@),
    {
        let mut bytes: Vec<u8> = Vec::new();
        push_u32_le(&mut bytes, self.msg_type.to_u32());
        #[verifier::truncate]
        let n = self.payload.len() as u32;
        push_u32_le(&mut bytes, n);
        let mut i: usize = 0;
        let ghost head = bytes@;
        while i < self.payload.len()
            invariant
                i <= self.payload@.len(),
                bytes@ == head + self.payload@.subrange(0, i as int),
            decreases self.payload@.len() - i,
        {
            bytes.push(self.payload[i]);
            assert(self.payload@.subrange(0, i + 1) =~= self.payload@.subrange(0, i as int).push(
                self.payload@[i as int],
            ));
            i += 1;
        }
        assert(self.payload@.subrange(0, i as int) =~= self.payload@);
        bytes
    }

    /// Reads a whole frame.
    pub fn from_bytes(bytes: &[u8]) -> (r: Result<Message, FrameError>)
        ensures
            match r {
                Ok(m) => frame_spec(bytes@) == Ok::<(MsgType, Seq<u8>), FrameError>(
                    (m.msg_type, m.payload@),
                ),
                Err(e) => frame_spec(bytes@) == Err::<(MsgType, Seq<u8>), FrameError>(e),
            },
    {
        let (t, n) = match decode_header(bytes) {
            Err(e) => return Err(e),
            Ok(h) => h,
        };
        let len = bytes.len();
        if (n as usize) > len - 8 {
            return Err(FrameError::TruncatedPayload);
        }
        let end = 8 + n as usize;
        let mut payload: Vec<u8> = Vec::new();
        let mut i: usize = 8;
        while i < end
            invariant
                8 <= i <= end <= bytes@.len(),
                payload@ == bytes@.subrange(8, i as int),
            decreases end - i,
        {
            payload.push(bytes[i]);
            assert(bytes@.subrange(8, i + 1) =~= bytes@.subrange(8, i as int).push(bytes@[i as int]));
            i += 1;
        }
        Ok(Message { msg_type: t, payload })
    }
}

/// Reading the frame of a message gives the message back, provided its
/// payload length fits the `u32` field.
pub proof fn law_frame_roundtrip(t: MsgType, payload: Seq<u8>, trailing: Seq<u8>)
    requires
        payload.len() <= u32::MAX,
    ensures
        frame_spec(frame(t, payload) + trailing) == Ok::<(MsgType, Seq<u8>), FrameError>(
            (t, payload),
        ),
{
    let b = frame(t, payload) + trailing;
    lemma_le32_roundtrip(msg_code(t), Seq::empty(), le32(payload.len() as u32) + payload + trailing);
    assert(b =~= Seq::<u8>::empty() + le32(msg_code(t)) + (le32(payload.len() as u32) + payload
        + trailing));
    lemma_le32_roundtrip(payload.len() as u32, le32(msg_code(t)), payload + trailing);
    assert(b =~= le32(msg_code(t)) + le32(payload.len() as u32) + (payload + trailing));
    assert(b.subrange(8, 8 + payload.len() as int) =~= payload);
}

/// Every message type survives its wire code.
pub proof fn law_msg_type_code_roundtrip(t: MsgType)
    ensures
        msg_type_of(msg_code(t)) == Some(t),
{
}

/// Why a reply cannot be read as an execution result.
#[derive(Debug, Clone, Copy, PartialEq, Eq, Structural)]
pub enum ReplyError {
    /// The reply is not a `ReportResult`.
    NotAResult,
    /// The payload is shorter than the 8 bytes of an `f64`.
    PayloadTooSmall,
}

/// The bits of the `f64` result that a `ReportResult` reply carries in
/// its first 8 payload bytes.
pub fn result_bits(msg: &Message) -> (r: Result<u64, ReplyError>)
    ensures
        msg.msg_type != MsgType::ReportResult ==> r == Err::<u64, ReplyError>(ReplyError::NotAResult),
        msg.msg_type == MsgType::ReportResult && msg.payload@.len() < 8 ==> r == Err::<
            u64,
            ReplyError,
        >(ReplyError::PayloadTooSmall),
        msg.msg_type == MsgType::ReportResult && msg.payload@.len() >= 8 ==> r == Ok::<
            u64,
            ReplyError,
        >(read_le64(msg.payload@, 0)),
{
    if msg.msg_type != MsgType::ReportResult {
        return Err(ReplyError::NotAResult);
    }
    if msg.payload.len() < 8 {
        return Err(ReplyError::PayloadTooSmall);
    }
    Ok(read_u64_le(msg.payload.as_slice(), 0))
}

/// The work that a `StealWork` reply hands over: its payload, or `None`
/// when the payload is empty.
pub fn stolen_work(reply: Message) -> (r: Option<Vec<u8>>)
    ensures
        reply.payload@.len() == 0 ==> r is None,
        reply.payload@.len() > 0 ==> (r matches Some(p) && p@ == reply.payload@),
{
    if reply.payload.len() == 0 {
        None
    } else {
        Some(reply.payload)
    }
}

/// A health-check reply says the node is alive: its payload is not empty.
pub fn is_alive_reply(reply: &Message) -> (b: bool)
    ensures
        b == (reply.payload@.len() > 0),
{
    reply.payload.len() > 0
}

} // verus!
