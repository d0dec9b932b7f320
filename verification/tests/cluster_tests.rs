use bml::cluster::{
    batch_result_message, decode_batch_request, decode_batch_result, encode_batch,
    fragment_for_node, parse_node_list, worker_step, WorkerAction, WorkerState,
};
use bml::distributed::{append_tensor, encode_wire, layer_fragment, ModelConfig};
use bml::net::{Message, MsgType};

#[test]
fn fragments_go_round_robin() {
    assert_eq!(fragment_for_node(0, 3), 0);
    assert_eq!(fragment_for_node(2, 3), 2);
    assert_eq!(fragment_for_node(5, 3), 2);
    assert_eq!(fragment_for_node(3, 3), 0);
}

#[test]
fn node_lists() {
    assert_eq!(parse_node_list("a:1, b:2 ,c:3"), vec!["a:1", "b:2", "c:3"]);
    assert_eq!(parse_node_list("x"), vec!["x"]);
    assert_eq!(parse_node_list("x,,y"), vec!["x", "", "y"]);
    assert_eq!(parse_node_list(""), vec![""]);
}

#[test]
fn batch_payloads() {
    let vals = [1.5f64.to_bits(), (-2.0f64).to_bits()];
    let p = encode_batch(2, &vals);
    assert_eq!(p.len(), 20);
    assert_eq!(decode_batch_request(&p, 2), Some(vals.to_vec()));
    assert_eq!(decode_batch_request(&p, 3), None);
    let reply = batch_result_message(&vals);
    assert_eq!(reply.msg_type, MsgType::BatchResult);
    assert_eq!(decode_batch_result(&reply), Some(vals.to_vec()));
    // The count says 5 but only 2 values fit.
    let long = Message::new(MsgType::BatchResult, encode_batch(5, &vals));
    assert_eq!(decode_batch_result(&long), Some(vals.to_vec()));
    assert_eq!(decode_batch_result(&Message::new(MsgType::BatchResult, vec![1, 0])), None);
    assert_eq!(decode_batch_result(&Message::new(MsgType::ReportResult, p)), None);
}

fn loaded_fragment_bytes() -> Vec<u8> {
    let mut weights = Vec::new();
    let mut tensors = Vec::new();
    append_tensor(&mut weights, &mut tensors, "blk.0.attn_norm.weight", &[1, 2], Some(&[2]));
    let config = ModelConfig {
        architecture: "llama".to_string(),
        n_layers: 1,
        n_heads: 1,
        n_embd: 2,
        context_length: 8,
        vocab_size: 10,
    };
    let f = layer_fragment(0, 1, false, weights, tensors, &config, 1, 2);
    encode_wire(&f)
}

#[test]
fn worker_answers() {
    let mut state = WorkerState { fragment: None };
    match worker_step(&mut state, Message::new(MsgType::HealthCheck, vec![])) {
        WorkerAction::Reply(m) => assert_eq!(m.payload, vec![1]),
        _ => panic!("expected a reply"),
    }
    match worker_step(&mut state, Message::new(MsgType::BatchRequest, encode_batch(2, &[1, 2]))) {
        WorkerAction::Reply(m) => assert!(m.payload.is_empty()),
        _ => panic!("expected an empty batch result"),
    }
    match worker_step(&mut state, Message::new(MsgType::ExecuteFragment, vec![1, 2, 3])) {
        WorkerAction::Refused(_, m) => {
            assert!(f64::from_le_bytes(m.payload[..8].try_into().unwrap()).is_nan())
        }
        _ => panic!("expected a refusal"),
    }
    let bytes = loaded_fragment_bytes();
    match worker_step(&mut state, Message::new(MsgType::ExecuteFragment, bytes.clone())) {
        WorkerAction::Reply(m) => {
            assert_eq!(f64::from_le_bytes(m.payload[..8].try_into().unwrap()), 1.0)
        }
        _ => panic!("expected a reply"),
    }
    assert!(state.fragment.is_some());
    match worker_step(&mut state, Message::new(MsgType::BatchRequest, encode_batch(2, &[7, 8]))) {
        WorkerAction::RunLayers(h) => assert_eq!(h, vec![7, 8]),
        _ => panic!("expected to run the layers"),
    }
    match worker_step(&mut state, Message::new(MsgType::StealWork, vec![])) {
        WorkerAction::Reply(m) => assert_eq!(m.payload, bytes),
        _ => panic!("expected the fragment"),
    }
    match worker_step(&mut state, Message::new(MsgType::ReportResult, vec![])) {
        WorkerAction::Unsupported(t) => assert_eq!(t, MsgType::ReportResult),
        _ => panic!("expected unsupported"),
    }
}
