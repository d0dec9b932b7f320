use bml::gguf::{parse_gguf_header, GgufDataType, GgufError, GGUF_MAGIC};
use bml::net::{
    decode_header, is_alive_reply, result_bits, stolen_work, FrameError, Message, MsgType,
    ReplyError,
};

#[test]
fn message_serialization() {
    let msg = Message::new(MsgType::ExecuteFragment, vec![1, 2, 3, 4]);
    let bytes = msg.to_bytes();
    assert_eq!(bytes.len(), 12);
    let msg_type = u32::from_le_bytes(bytes[0..4].try_into().unwrap());
    let payload_len = u32::from_le_bytes(bytes[4..8].try_into().unwrap());
    assert_eq!(msg_type, 0);
    assert_eq!(payload_len, 4);
    assert_eq!(&bytes[8..], &[1, 2, 3, 4]);
}

#[test]
fn msg_type_roundtrip() {
    for i in 0..6 {
        let mt = MsgType::from_u32(i).unwrap();
        assert_eq!(mt as u32, i);
        assert_eq!(mt.to_u32(), i);
    }
    assert!(MsgType::from_u32(99).is_none());
}

#[test]
fn frame_roundtrip_and_errors() {
    let msg = Message::new(MsgType::BatchResult, vec![9, 8, 7]);
    let mut bytes = msg.to_bytes();
    bytes.push(0xAA);
    let back = Message::from_bytes(&bytes).unwrap();
    assert_eq!(back.msg_type, MsgType::BatchResult);
    assert_eq!(back.payload, vec![9, 8, 7]);
    assert_eq!(decode_header(&bytes[..8]).unwrap(), (MsgType::BatchResult, 3));
    assert_eq!(Message::from_bytes(&bytes[..5]).unwrap_err(), FrameError::TooShort);
    assert_eq!(Message::from_bytes(&bytes[..9]).unwrap_err(), FrameError::TruncatedPayload);
    let mut bad = bytes.clone();
    bad[0] = 42;
    assert_eq!(Message::from_bytes(&bad).unwrap_err(), FrameError::UnknownType(42));
}

#[test]
fn replies() {
    let ok = Message::new(MsgType::ReportResult, 42.0f64.to_le_bytes().to_vec());
    assert_eq!(f64::from_bits(result_bits(&ok).unwrap()), 42.0);
    let short = Message::new(MsgType::ReportResult, vec![1, 2]);
    assert_eq!(result_bits(&short), Err(ReplyError::PayloadTooSmall));
    let other = Message::new(MsgType::HealthCheck, vec![1]);
    assert_eq!(result_bits(&other), Err(ReplyError::NotAResult));
    assert!(is_alive_reply(&other));
    assert!(!is_alive_reply(&Message::new(MsgType::HealthCheck, vec![])));
    assert_eq!(stolen_work(Message::new(MsgType::StealWork, vec![10, 20, 30])), Some(vec![10, 20, 30]));
    assert_eq!(stolen_work(Message::new(MsgType::StealWork, vec![])), None);
}

#[test]
fn data_type_element_sizes() {
    assert_eq!(GgufDataType::U8.element_size(), 1);
    assert_eq!(GgufDataType::F32.element_size(), 4);
    assert_eq!(GgufDataType::F64.element_size(), 8);
    assert_eq!(GgufDataType::String.element_size(), 0);
}

fn gguf_bytes(magic: u32, version: u32) -> Vec<u8> {
    let mut b = Vec::new();
    b.extend_from_slice(&magic.to_le_bytes());
    b.extend_from_slice(&version.to_le_bytes());
    b.extend_from_slice(&5u64.to_le_bytes());
    b.extend_from_slice(&7u64.to_le_bytes());
    b
}

#[test]
fn open_valid_gguf_header() {
    let h = parse_gguf_header(&gguf_bytes(GGUF_MAGIC, 3)).unwrap();
    assert_eq!(h.magic, GGUF_MAGIC);
    assert_eq!(h.version, 3);
    assert_eq!(h.tensor_count, 5);
    assert_eq!(h.metadata_kv_count, 7);
}

#[test]
fn reject_gguf_headers() {
    assert_eq!(parse_gguf_header(b"too small").unwrap_err(), GgufError::TooSmall);
    // The counts end at byte 24: a header cut inside them is too small.
    let cut = gguf_bytes(GGUF_MAGIC, 3);
    assert_eq!(parse_gguf_header(&cut[..20]).unwrap_err(), GgufError::TooSmall);
    assert_eq!(parse_gguf_header(&cut[..23]).unwrap_err(), GgufError::TooSmall);
    assert_eq!(
        parse_gguf_header(&gguf_bytes(0xDEADBEEF, 3)).unwrap_err(),
        GgufError::BadMagic(0xDEADBEEF)
    );
    assert_eq!(
        parse_gguf_header(&gguf_bytes(GGUF_MAGIC, 99)).unwrap_err(),
        GgufError::UnsupportedVersion(99)
    );
}
