use wvec::pretokenize::{pretokenize, PreToken};

fn texts(tokens: &[PreToken]) -> Vec<&str> {
    tokens.iter().map(|t| t.text.as_str()).collect()
}

#[test]
fn test_simple_english() {
    let tokens = pretokenize("hello world");
    assert_eq!(texts(&tokens), vec!["hello", "world"]);
}

#[test]
fn test_punctuation_separated() {
    let tokens = pretokenize("hello, world!");
    assert_eq!(texts(&tokens), vec!["hello", ",", "world", "!"]);
}

#[test]
fn test_apostrophe_kept() {
    let tokens = pretokenize("don't can't");
    assert_eq!(texts(&tokens), vec!["don't", "can't"]);
}

#[test]
fn test_chinese_char_level() {
    let tokens = pretokenize("你好世界");
    assert_eq!(texts(&tokens), vec!["你", "好", "世", "界"]);
}

#[test]
fn test_mixed_text() {
    let tokens = pretokenize("hello你好world");
    assert_eq!(texts(&tokens), vec!["hello", "你", "好", "world"]);
}

#[test]
fn test_german() {
    let tokens = pretokenize("größe über");
    assert_eq!(texts(&tokens), vec!["größe", "über"]);
}

#[test]
fn test_empty() {
    let tokens = pretokenize("");
    assert!(tokens.is_empty());
}

#[test]
fn test_whitespace_only() {
    let tokens = pretokenize("   ");
    assert!(tokens.is_empty());
}

#[test]
fn punctuation_and_tabs_split() {
    let tokens = pretokenize("a\tb;c(d)");
    assert_eq!(texts(&tokens), vec!["a", "b", ";", "c", "(", "d", ")"]);
}
