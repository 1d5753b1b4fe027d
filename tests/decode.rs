use wvec::{decode, Vocabulary};

#[test]
fn test_decode_basic() {
    let mut vocab = Vocabulary::new();
    let h = vocab.add_token("h".to_string());
    let i = vocab.add_token("i".to_string());

    let result = decode(&vocab, &[h, i]);
    assert_eq!(result, "hi");
}

#[test]
fn test_decode_empty() {
    let vocab = Vocabulary::new();
    let result = decode(&vocab, &[]);
    assert_eq!(result, "");
}

#[test]
fn test_decode_unknown_id() {
    let vocab = Vocabulary::new();
    let result = decode(&vocab, &[999]);
    assert_eq!(result, "[UNK]");
}

#[test]
fn test_decode_merged_token() {
    let mut vocab = Vocabulary::new();
    let hello = vocab.add_token("hello".to_string());

    let result = decode(&vocab, &[hello]);
    assert_eq!(result, "hello");
}

#[test]
fn decode_unknown_id_in_vocabulary_of_ten() {
    let mut vocab = Vocabulary::new();
    for t in ["a", "b", "c", "d", "e", "f"] {
        vocab.add_token(t.to_string());
    }
    assert_eq!(vocab.len(), 10);
    assert_eq!(decode(&vocab, &[999]), "[UNK]");
    assert_eq!(decode(&vocab, &[4, 999, 5]), "a[UNK]b");
    assert_eq!(decode(&vocab, &[10]), "[UNK]");
}
