use wvec::codec::MAX_TOKEN_LEN;
use wvec::{from_bytes, to_bytes, train, FormatError, Vocabulary};

fn header(version: u32, tokens: u32, pairs: u32) -> Vec<u8> {
    let mut b = b"BPE\0".to_vec();
    b.extend_from_slice(&version.to_le_bytes());
    b.extend_from_slice(&tokens.to_le_bytes());
    b.extend_from_slice(&pairs.to_le_bytes());
    b
}

#[test]
fn test_save_load_roundtrip() {
    let pretokens = ["hello", "hello", "world", "world", "world"];
    let vocab = train(&pretokens, 20);

    let bytes = to_bytes(&vocab);
    let loaded = from_bytes(&bytes).expect("load failed");

    assert_eq!(vocab.len(), loaded.len());
    assert_eq!(vocab.pairs_count(), loaded.pairs_count());
    for id in 0..vocab.len() as u32 {
        assert_eq!(vocab.get_token(id), loaded.get_token(id));
    }
    for (orig, loaded_pair) in vocab.pairs().iter().zip(loaded.pairs().iter()) {
        assert_eq!(orig.left, loaded_pair.left);
        assert_eq!(orig.right, loaded_pair.right);
        assert_eq!(orig.id, loaded_pair.id);
    }
}

#[test]
fn test_load_invalid_magic() {
    let result = from_bytes(b"XXXX");
    assert!(result.is_err());
    assert!(matches!(result, Err(FormatError::InvalidMagic)));
}

#[test]
fn test_save_load_empty_vocab() {
    let vocab = Vocabulary::new();
    let bytes = to_bytes(&vocab);
    let loaded = from_bytes(&bytes).expect("load failed");
    assert_eq!(vocab.len(), loaded.len());
}

#[test]
fn saved_bytes_of_special_tokens() {
    let vocab = Vocabulary::new();
    let mut expected = header(1, 4, 0);
    for t in ["[UNK]", "[PAD]", "[BOS]", "[EOS]"] {
        expected.extend_from_slice(&5u32.to_le_bytes());
        expected.extend_from_slice(t.as_bytes());
    }
    assert_eq!(to_bytes(&vocab), expected);
}

#[test]
fn saved_bytes_hold_rules_in_order() {
    let mut vocab = Vocabulary::new();
    let a = vocab.add_token("é".to_string());
    let b = vocab.add_token("b".to_string());
    let ab = vocab.add_token("éb".to_string());
    vocab.add_pair(a, b, ab);
    let bytes = to_bytes(&vocab);
    assert_eq!(&bytes[0..16], &header(1, 7, 1)[..]);
    let tail = &bytes[bytes.len() - 12..];
    assert_eq!(tail, &[4, 0, 0, 0, 5, 0, 0, 0, 6, 0, 0, 0]);
    let loaded = from_bytes(&bytes).unwrap();
    assert_eq!(loaded.get_token(4), Some("é"));
    assert_eq!(loaded.get_token(6), Some("éb"));
    assert_eq!(loaded.pairs(), vocab.pairs());
}

#[test]
fn load_rejects_bad_magic_with_more_data() {
    let mut bytes = to_bytes(&Vocabulary::new());
    bytes[3] = b'X';
    assert_eq!(from_bytes(&bytes).err(), Some(FormatError::InvalidMagic));
}

#[test]
fn load_rejects_other_versions() {
    let bytes = header(2, 0, 0);
    assert_eq!(from_bytes(&bytes).err(), Some(FormatError::UnsupportedVersion(2)));
}

#[test]
fn load_rejects_oversized_token_length() {
    let mut bytes = header(1, 1, 0);
    bytes.extend_from_slice(&(MAX_TOKEN_LEN + 1).to_le_bytes());
    assert_eq!(from_bytes(&bytes).err(), Some(FormatError::TokenTooLong(MAX_TOKEN_LEN + 1)));
}

#[test]
fn load_rejects_invalid_utf8() {
    let mut bytes = header(1, 1, 0);
    bytes.extend_from_slice(&2u32.to_le_bytes());
    bytes.extend_from_slice(&[0xC3, 0x28]);
    assert_eq!(from_bytes(&bytes).err(), Some(FormatError::InvalidUtf8));
}

#[test]
fn load_rejects_truncated_data() {
    assert_eq!(from_bytes(b"BP").err(), Some(FormatError::Truncated));
    assert_eq!(from_bytes(&header(1, 1, 0)).err(), Some(FormatError::Truncated));
    let mut bytes = header(1, 0, 1);
    bytes.extend_from_slice(&[1, 0, 0, 0, 2]);
    assert_eq!(from_bytes(&bytes).err(), Some(FormatError::Truncated));
}

#[test]
fn load_of_empty_file_data_has_no_tokens() {
    let loaded = from_bytes(&header(1, 0, 0)).unwrap();
    assert_eq!(loaded.len(), 0);
    assert_eq!(loaded.pairs_count(), 0);
}
