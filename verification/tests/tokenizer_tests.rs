use bml::tokenizer::{split_words, Vocabulary};

fn vocab() -> Vocabulary {
    let tokens: Vec<String> = ["<unk>", "<s>", "</s>", "hello", "\u{2581}World", "hello", "!"]
        .iter()
        .map(|s| s.to_string())
        .collect();
    Vocabulary::from_tokens(tokens, "llama".to_string(), None, Some(2))
}

#[test]
fn encode_looks_up_words() {
    let v = vocab();
    assert_eq!(v.bos_token_id, 1);
    assert_eq!(v.eos_token_id, 2);
    // "hello" occurs twice: the later id wins.
    assert_eq!(v.encode("hello"), vec![5]);
    // Found in lowercase.
    assert_eq!(v.encode("HELLO"), vec![5]);
    // Not looked up with the word marker in front: falls back to bos.
    assert_eq!(v.encode("World"), vec![1]);
    // Unknown word falls back to the begin-of-sequence id.
    assert_eq!(v.encode("zzz"), vec![1]);
    assert_eq!(v.encode("  hello \t World ! "), vec![5, 1, 6]);
}

#[test]
fn encode_empty_returns_bos() {
    let v = vocab();
    assert_eq!(v.encode(""), vec![1]);
    assert_eq!(v.encode("   \n"), vec![1]);
}

#[test]
fn decode_strips_marker() {
    let v = vocab();
    assert_eq!(v.decode_single(4), "\u{2581}World");
    assert_eq!(v.decode_single(100), "<unk>");
    assert_eq!(v.decode(&[3, 4, 6]), "helloWorld!");
    assert_eq!(v.len(), 7);
    assert!(!v.is_empty());
}

#[test]
fn words_split_at_whitespace() {
    assert_eq!(split_words(" a  bc\td\u{a0}e "), vec!["a", "bc", "d", "e"]);
    assert!(split_words("").is_empty());
}

#[test]
fn decode_inverts_encode_for_vocabulary_words() {
    let v = vocab();
    let ids = v.encode(" hello  !\nhello ");
    assert_eq!(ids, vec![5, 6, 5]);
    assert_eq!(v.decode(&ids), "hello!hello");
}

#[test]
fn encode_is_never_empty() {
    let v = vocab();
    for text in ["", "   ", "zzz", "hello world"] {
        assert!(!v.encode(text).is_empty());
    }
}
