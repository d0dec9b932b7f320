use bml::api::{admit_request, completion_text, default_max_tokens, stream_tokens, MAX_PENDING_REQUESTS};

#[test]
fn default_request_values() {
    assert_eq!(default_max_tokens(), 128);
}

#[test]
fn back_pressure_refuses_at_capacity() {
    assert_eq!(MAX_PENDING_REQUESTS, 64);
    assert!(admit_request(0));
    assert!(admit_request(63));
    assert!(!admit_request(64));
    assert!(!admit_request(1000));
}

#[test]
fn completion_echoes_prompt() {
    assert_eq!(completion_text("Hola", 128), "Hola [BML placeholder: 128 tokens]");
    assert_eq!(completion_text("", 0), " [BML placeholder: 0 tokens]");
}

#[test]
fn streamed_tokens() {
    assert_eq!(stream_tokens(), vec!["B", "M", "L"]);
}
