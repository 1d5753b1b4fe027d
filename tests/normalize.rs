use wvec::normalize::{is_cjk, is_east_asian, is_hangul, is_hiragana, is_katakana, normalize, normalize_char};

#[test]
fn test_ascii_lowercase() {
    assert_eq!(normalize("HELLO WORLD"), "hello world");
}

#[test]
fn test_european_lowercase() {
    assert_eq!(normalize("ÄÖÜÉÇ"), "äöüéç");
    assert_eq!(normalize("ŁŃŚŹŻ"), "łńśźż");
}

#[test]
fn test_quotes_normalized() {
    assert_eq!(normalize("'hello' \"world\""), "'hello' \"world\"");
}

#[test]
fn test_dashes_normalized() {
    assert_eq!(normalize("a–b—c"), "a-b-c");
}

#[test]
fn test_whitespace_collapsed() {
    assert_eq!(normalize("hello   world"), "hello world");
    assert_eq!(normalize("  hello  "), "hello");
    assert_eq!(normalize("a\u{3000}b"), "a b"); // Ideographic space
}

#[test]
fn test_mixed_content() {
    assert_eq!(
        normalize("  HELLO   'World'   你好…  "),
        "hello 'world' 你好..."
    );
}

#[test]
fn test_ellipsis_expanded() {
    assert_eq!(normalize("wait…what"), "wait...what");
    assert_eq!(normalize("…"), "...");
    assert_eq!(normalize("end…"), "end...");
    assert_eq!(normalize("…start"), "...start");
}

#[test]
fn test_multiple_spaces_collapsed() {
    assert_eq!(normalize("hello   world"), "hello world");
    assert_eq!(normalize("a     b     c"), "a b c");
}

#[test]
fn test_newlines_collapsed() {
    assert_eq!(normalize("hello\nworld"), "hello world");
    assert_eq!(normalize("hello\n\n\nworld"), "hello world");
}

#[test]
fn test_tabs_collapsed() {
    assert_eq!(normalize("hello\tworld"), "hello world");
    assert_eq!(normalize("hello\t\t\tworld"), "hello world");
}

#[test]
fn test_mixed_whitespace_collapsed() {
    assert_eq!(normalize("a \n\t b"), "a b");
}

#[test]
fn test_leading_trailing_whitespace_trimmed() {
    assert_eq!(normalize("  hello  "), "hello");
    assert_eq!(normalize("\n\nhello\n\n"), "hello");
}

#[test]
fn test_special_whitespace_normalized() {
    assert_eq!(normalize("a\u{00A0}b"), "a b"); // NBSP
    assert_eq!(normalize("a\u{3000}b"), "a b"); // Ideographic space
    assert_eq!(normalize("a\u{2003}b"), "a b"); // Em space
    assert_eq!(normalize("a\u{202F}b"), "a b"); // Narrow NBSP
}

#[test]
fn test_normalize_char_ascii() {
    assert_eq!(normalize_char('A'), 'a');
    assert_eq!(normalize_char('Z'), 'z');
    assert_eq!(normalize_char('a'), 'a'); // Already lowercase
}

#[test]
fn test_normalize_char_quotes() {
    assert_eq!(normalize_char('\u{2018}'), '\''); // '
    assert_eq!(normalize_char('\u{2019}'), '\''); // '
    assert_eq!(normalize_char('\u{201C}'), '"'); // "
    assert_eq!(normalize_char('\u{201D}'), '"'); // "
}

#[test]
fn test_normalize_char_dashes() {
    assert_eq!(normalize_char('\u{2013}'), '-'); // en dash
    assert_eq!(normalize_char('\u{2014}'), '-'); // em dash
}

#[test]
fn test_normalize_char_european() {
    assert_eq!(normalize_char('É'), 'é');
    assert_eq!(normalize_char('Ü'), 'ü');
    assert_eq!(normalize_char('Ł'), 'ł');
    assert_eq!(normalize_char('é'), 'é'); // Already lowercase
}

#[test]
fn test_complex_mixed_content() {
    assert_eq!(
        normalize("  HELLO   'World'   你好…  "),
        "hello 'world' 你好..."
    );
}

#[test]
fn test_realistic_sentence() {
    assert_eq!(
        normalize("The café's \"special\" costs €10–€15."),
        "the café's \"special\" costs €10-€15."
    );
}

#[test]
fn test_wikipedia_like_content() {
    assert_eq!(
        normalize("Albert Einstein (1879–1955) was a German-born physicist…"),
        "albert einstein (1879-1955) was a german-born physicist..."
    );
}

#[test]
fn test_multilingual_content() {
    assert_eq!(normalize("Ü北京 — PARIS — 東京"), "ü北京 - paris - 東京");
}

#[test]
fn test_is_cjk() {
    // Common CJK characters
    assert!(is_cjk('中'));
    assert!(is_cjk('国'));
    assert!(is_cjk('字'));

    // CJK Extension B (rare characters)
    assert!(is_cjk('\u{20000}'));

    // Non-CJK
    assert!(!is_cjk('a'));
    assert!(!is_cjk('あ')); // Hiragana
    assert!(!is_cjk('ア')); // Katakana
    assert!(!is_cjk('한')); // Hangul
}

#[test]
fn test_is_hangul() {
    assert!(is_hangul('한'));
    assert!(is_hangul('글'));
    assert!(is_hangul('\u{AC00}')); // First Hangul syllable

    assert!(!is_hangul('中'));
    assert!(!is_hangul('a'));
}

#[test]
fn test_is_hiragana() {
    assert!(is_hiragana('あ'));
    assert!(is_hiragana('ひ'));
    assert!(is_hiragana('ん'));

    assert!(!is_hiragana('ア')); // Katakana
    assert!(!is_hiragana('中'));
}

#[test]
fn test_is_katakana() {
    assert!(is_katakana('ア'));
    assert!(is_katakana('カ'));
    assert!(is_katakana('ン'));

    assert!(!is_katakana('あ')); // Hiragana
    assert!(!is_katakana('中'));
}

#[test]
fn test_is_east_asian() {
    assert!(is_east_asian('中')); // CJK
    assert!(is_east_asian('あ')); // Hiragana
    assert!(is_east_asian('ア')); // Katakana
    assert!(is_east_asian('한')); // Hangul

    assert!(!is_east_asian('a'));
    assert!(!is_east_asian('é'));
}

#[test]
fn test_cjk_preserved() {
    assert_eq!(normalize("你好世界"), "你好世界");
    assert_eq!(normalize("中文测试"), "中文测试");
}

#[test]
fn test_japanese_preserved() {
    assert_eq!(normalize("ひらがな"), "ひらがな");
    assert_eq!(normalize("カタカナ"), "カタカナ");
    assert_eq!(normalize("漢字とひらがな"), "漢字とひらがな");
}

#[test]
fn test_korean_preserved() {
    assert_eq!(normalize("한글"), "한글");
    assert_eq!(normalize("안녕하세요"), "안녕하세요");
}

#[test]
fn test_mixed_scripts() {
    assert_eq!(normalize("Hello 世界"), "hello 世界");
    assert_eq!(
        normalize("Bonjour 你好 こんにちは"),
        "bonjour 你好 こんにちは"
    );
    assert_eq!(
        normalize("MIXED中文English日本語"),
        "mixed中文english日本語"
    );
}

#[test]
fn typographic_spaces_and_quotes_fold() {
    assert_eq!(normalize("\u{201E}ok\u{201F}"), "\"ok\"");
    assert_eq!(normalize("a\u{2010}b\u{2015}c"), "a-b-c");
    assert_eq!(normalize("x\u{205F}\u{2000}y"), "x y");
    assert_eq!(normalize("ŒUVRE Ÿ À"), "œuvre ÿ à");
}

#[test]
fn whitespace_only_normalizes_to_empty() {
    assert_eq!(normalize(""), "");
    assert_eq!(normalize(" \t\n\u{3000}"), "");
    assert_eq!(normalize("a \u{2026}"), "a ...");
}
