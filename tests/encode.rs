use wvec::types::UNK_ID;
use wvec::{decode, encode, train, Vocabulary};

#[test]
fn test_encode_basic() {
    let pretokens = ["ab", "ab", "ab"];
    let vocab = train(&pretokens, 10);

    let ids = encode(&vocab, "ab");
    assert!(!ids.is_empty());

    let decoded = decode(&vocab, &ids);
    assert_eq!(decoded, "ab");
}

#[test]
fn test_encode_empty() {
    let vocab = Vocabulary::new();
    let ids = encode(&vocab, "");
    assert!(ids.is_empty());
}

#[test]
fn test_encode_unknown_char() {
    let vocab = Vocabulary::new();
    let ids = encode(&vocab, "x");
    assert_eq!(ids, vec![UNK_ID]);
}

#[test]
fn test_encode_decode_roundtrip() {
    let pretokens = ["hello", "hello", "world"];
    let vocab = train(&pretokens, 20);

    let ids = encode(&vocab, "hello");
    let decoded = decode(&vocab, &ids);
    assert_eq!(decoded, "hello");
}

#[test]
fn test_encode_applies_merges() {
    let pretokens = ["aa", "aa", "aa", "aa"];
    let vocab = train(&pretokens, 10);

    let ids = encode(&vocab, "aa");
    assert_eq!(ids.len(), 1);
}

#[test]
fn encode_without_merges_is_one_id_per_character() {
    let mut vocab = Vocabulary::new();
    let h = vocab.add_token("h".to_string());
    let i = vocab.add_token("i".to_string());
    assert_eq!(encode(&vocab, "hih"), vec![h, i, h]);
    assert_eq!(encode(&vocab, "hx"), vec![h, UNK_ID]);
}

#[test]
fn encode_applies_rules_in_order() {
    let mut vocab = Vocabulary::new();
    let h = vocab.add_token("h".to_string());
    let i = vocab.add_token("i".to_string());
    let hi = vocab.add_token("hi".to_string());
    vocab.add_pair(h, i, hi);
    assert_eq!(encode(&vocab, "hi"), vec![hi]);
    assert_eq!(encode(&vocab, "hih"), vec![hi, h]);
}

#[test]
fn encode_merge_does_not_skip_fresh_symbol() {
    let mut vocab = Vocabulary::new();
    let a = vocab.add_token("a".to_string());
    let aa = vocab.add_token("aa".to_string());
    vocab.add_pair(a, a, aa);
    assert_eq!(encode(&vocab, "aaa"), vec![aa, a]);
    assert_eq!(encode(&vocab, "aaaa"), vec![aa, aa]);
}

#[test]
fn round_trip_on_trained_text() {
    let pretokens = ["lower", "lowest", "newer", "wider", "low", "low"];
    let vocab = train(&pretokens, 30);
    for s in ["lower", "lowest", "newer", "wider", "rowel", "dew", "e", ""] {
        assert_eq!(decode(&vocab, &encode(&vocab, s)), s);
    }
}

#[test]
fn round_trip_on_unicode_text() {
    let pretokens = ["你好", "你好", "世界", "größe"];
    let vocab = train(&pretokens, 20);
    for s in ["你好世界", "世你", "größe", "eg"] {
        assert_eq!(decode(&vocab, &encode(&vocab, s)), s);
    }
}
