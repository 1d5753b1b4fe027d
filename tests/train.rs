use std::collections::HashSet;

use wvec::train::{
    apply_merge, count_pair_freqs, count_pretoken_freqs, find_most_frequent_pair,
    init_char_sequences, merge_tokens,
};
use wvec::{train, BpeTokenId, Vocabulary};

fn freq_of(freqs: &(Vec<String>, Vec<u32>), word: &str) -> Option<u32> {
    freqs.0.iter().position(|w| w == word).map(|k| freqs.1[k])
}

fn count_of(counts: &[((BpeTokenId, BpeTokenId), u64)], pair: (BpeTokenId, BpeTokenId)) -> Option<u64> {
    counts.iter().find(|(p, _)| *p == pair).map(|(_, c)| *c)
}

fn words(list: &[(&str, u32)]) -> (Vec<String>, Vec<u32>) {
    (
        list.iter().map(|(w, _)| w.to_string()).collect(),
        list.iter().map(|(_, c)| *c).collect(),
    )
}

fn has_token(vocab: &Vocabulary, text: &str) -> bool {
    (0..vocab.len() as u32).any(|id| vocab.get_token(id) == Some(text))
}

#[test]
fn test_count_pretoken_freqs_basic() {
    let pretokens = ["hello", "world", "hello", "hello"];
    let freqs = count_pretoken_freqs(&pretokens);

    assert_eq!(freq_of(&freqs, "hello"), Some(3));
    assert_eq!(freq_of(&freqs, "world"), Some(1));
    assert_eq!(freqs.0.len(), 2);
}

#[test]
fn test_count_pretoken_freqs_empty() {
    let pretokens: [&str; 0] = [];
    let freqs = count_pretoken_freqs(&pretokens);

    assert!(freqs.0.is_empty());
}

#[test]
fn test_count_pretoken_freqs_skips_empty_strings() {
    let pretokens = ["hello", "", "world", ""];
    let freqs = count_pretoken_freqs(&pretokens);

    assert_eq!(freqs.0.len(), 2);
    assert!(freq_of(&freqs, "").is_none());
}

#[test]
fn test_count_pretoken_freqs_unicode() {
    let pretokens = ["你好", "世界", "你好"];
    let freqs = count_pretoken_freqs(&pretokens);

    assert_eq!(freq_of(&freqs, "你好"), Some(2));
    assert_eq!(freq_of(&freqs, "世界"), Some(1));
}

#[test]
fn count_pretoken_freqs_keeps_first_occurrence_order() {
    let pretokens = ["b", "a", "b", "c", "a"];
    let freqs = count_pretoken_freqs(&pretokens);
    assert_eq!(freqs.0, vec!["b".to_string(), "a".to_string(), "c".to_string()]);
    assert_eq!(freqs.1, vec![2, 2, 1]);
}

#[test]
fn test_init_char_sequences_basic() {
    let (w, c) = words(&[("ab", 2)]);
    let mut vocab = Vocabulary::new();
    let (sequences, freqs) = init_char_sequences(&w, &c, &mut vocab);

    assert_eq!(sequences.len(), 1);
    assert_eq!(freqs.len(), 1);
    assert_eq!(freqs[0], 2);
    assert_eq!(sequences[0].len(), 2);
}

#[test]
fn test_init_char_sequences_multiple_words() {
    let (w, c) = words(&[("hi", 3), ("ho", 1)]);
    let mut vocab = Vocabulary::new();
    let (sequences, freqs) = init_char_sequences(&w, &c, &mut vocab);

    assert_eq!(sequences.len(), 2);
    assert_eq!(freqs.len(), 2);
}

#[test]
fn test_init_char_sequences_shared_chars() {
    let (w, c) = words(&[("ab", 1), ("ba", 1)]);
    let mut vocab = Vocabulary::new();
    let (sequences, _freqs) = init_char_sequences(&w, &c, &mut vocab);

    let all_ids: HashSet<_> = sequences.iter().flatten().collect();
    assert_eq!(all_ids.len(), 2);
}

#[test]
fn init_char_sequences_ids_follow_specials() {
    let (w, c) = words(&[("hi", 2), ("ho", 1)]);
    let mut vocab = Vocabulary::new();
    let (sequences, freqs) = init_char_sequences(&w, &c, &mut vocab);
    assert_eq!(sequences, vec![vec![4, 5], vec![4, 6]]);
    assert_eq!(freqs, vec![2, 1]);
    assert_eq!(vocab.len(), 7);
    assert_eq!(vocab.get_token(6), Some("o"));
}

#[test]
fn test_count_pair_freqs_basic() {
    let sequences = vec![vec![1, 2, 3]];
    let freqs = vec![1];

    let pair_counts = count_pair_freqs(&sequences, &freqs);

    assert_eq!(count_of(&pair_counts, (1, 2)), Some(1));
    assert_eq!(count_of(&pair_counts, (2, 3)), Some(1));
    assert_eq!(pair_counts.len(), 2);
}

#[test]
fn test_count_pair_freqs_with_frequency() {
    let sequences = vec![vec![1, 2, 3]];
    let freqs = vec![5];

    let pair_counts = count_pair_freqs(&sequences, &freqs);

    assert_eq!(count_of(&pair_counts, (1, 2)), Some(5));
    assert_eq!(count_of(&pair_counts, (2, 3)), Some(5));
}

#[test]
fn test_count_pair_freqs_multiple_sequences() {
    let sequences = vec![vec![1, 2], vec![1, 2]];
    let freqs = vec![2, 3];

    let pair_counts = count_pair_freqs(&sequences, &freqs);

    assert_eq!(count_of(&pair_counts, (1, 2)), Some(5));
}

#[test]
fn test_count_pair_freqs_repeated_pair() {
    let sequences = vec![vec![1, 1, 1]];
    let freqs = vec![1];

    let pair_counts = count_pair_freqs(&sequences, &freqs);

    assert_eq!(count_of(&pair_counts, (1, 1)), Some(2));
}

#[test]
fn test_count_pair_freqs_single_token() {
    let sequences = vec![vec![1]];
    let freqs = vec![1];

    let pair_counts = count_pair_freqs(&sequences, &freqs);

    assert!(pair_counts.is_empty());
}

#[test]
fn test_count_pair_freqs_empty() {
    let sequences: Vec<Vec<BpeTokenId>> = vec![];
    let freqs: Vec<u32> = vec![];

    let pair_counts = count_pair_freqs(&sequences, &freqs);

    assert!(pair_counts.is_empty());
}

#[test]
fn test_find_most_frequent_pair_basic() {
    let pair_counts = vec![((1, 2), 10), ((3, 4), 5), ((5, 6), 20)];

    let (left, right) = find_most_frequent_pair(&pair_counts);

    assert_eq!((left, right), (5, 6));
}

#[test]
fn test_find_most_frequent_pair_single() {
    let pair_counts = vec![((1, 2), 100)];

    let (left, right) = find_most_frequent_pair(&pair_counts);

    assert_eq!((left, right), (1, 2));
}

#[test]
fn find_most_frequent_pair_breaks_ties_by_smallest_pair() {
    let pair_counts = vec![((7, 1), 4), ((3, 9), 4), ((3, 2), 4), ((1, 1), 3)];
    assert_eq!(find_most_frequent_pair(&pair_counts), (3, 2));
}

#[test]
fn merge_tokens_concatenates_texts() {
    let mut vocab = Vocabulary::new();
    let h = vocab.add_token("h".to_string());
    let e = vocab.add_token("e".to_string());
    let he = merge_tokens(&mut vocab, h, e);
    assert_eq!(he, 6);
    assert_eq!(vocab.get_token(he), Some("he"));
    assert_eq!(vocab.pairs()[0], wvec::BpePair::new(h, e, he));
}

#[test]
fn test_apply_merge_basic() {
    let mut sequences = vec![vec![1, 2, 3]];
    apply_merge(&mut sequences, 1, 2, 99);

    assert_eq!(sequences[0], vec![99, 3]);
}

#[test]
fn test_apply_merge_multiple_occurrences() {
    let mut sequences = vec![vec![1, 2, 1, 2]];
    apply_merge(&mut sequences, 1, 2, 99);

    assert_eq!(sequences[0], vec![99, 99]);
}

#[test]
fn test_apply_merge_no_match() {
    let mut sequences = vec![vec![1, 2, 3]];
    apply_merge(&mut sequences, 5, 6, 99);

    assert_eq!(sequences[0], vec![1, 2, 3]);
}

#[test]
fn test_apply_merge_adjacent_pairs() {
    let mut sequences = vec![vec![1, 1, 1]];
    apply_merge(&mut sequences, 1, 1, 99);

    assert_eq!(sequences[0], vec![99, 1]);
}

#[test]
fn test_apply_merge_multiple_sequences() {
    let mut sequences = vec![vec![1, 2, 3], vec![1, 2, 4], vec![5, 6, 7]];
    apply_merge(&mut sequences, 1, 2, 99);

    assert_eq!(sequences[0], vec![99, 3]);
    assert_eq!(sequences[1], vec![99, 4]);
    assert_eq!(sequences[2], vec![5, 6, 7]);
}

#[test]
fn apply_merge_rescans_fresh_symbol() {
    let mut sequences = vec![vec![1, 1, 2]];
    apply_merge(&mut sequences, 9, 2, 9);
    assert_eq!(sequences[0], vec![1, 1, 2]);
    let mut chain = vec![vec![5, 2, 2, 2]];
    apply_merge(&mut chain, 5, 2, 5);
    assert_eq!(chain[0], vec![5]);
}

#[test]
fn test_train_basic() {
    let pretokens = ["ab", "ab", "ab"];
    let vocab = train(&pretokens, 10);

    assert!(vocab.len() >= 7);
}

#[test]
fn test_train_respects_vocab_size() {
    let pretokens = ["aabb", "aabb"];
    let vocab = train(&pretokens, 8);
    assert!(vocab.len() <= 8);
}

#[test]
fn test_train_empty_input() {
    let pretokens: [&str; 0] = [];
    let vocab = train(&pretokens, 100);

    assert_eq!(vocab.len(), 4);
}

#[test]
fn test_train_single_char_words() {
    let pretokens = ["a", "b", "c"];
    let vocab = train(&pretokens, 10);

    assert_eq!(vocab.len(), 7);
}

#[test]
fn test_train_merges_frequent_pairs() {
    let pretokens = ["aab", "aab", "aab", "aac"];
    let vocab = train(&pretokens, 20);

    assert!(has_token(&vocab, "aa"), "Expected 'aa' to be merged");
}

#[test]
fn test_train_unicode() {
    let pretokens = ["你好", "你好", "世界"];
    let vocab = train(&pretokens, 15);

    assert!(vocab.len() >= 8);
}

#[test]
fn train_single_pretoken_learns_its_pair() {
    let pretokens = ["ab", "ab", "ab"];
    let vocab = train(&pretokens, 10);
    assert_eq!(vocab.len(), 7);
    assert_eq!(vocab.get_token(6), Some("ab"));
    let a = vocab.get_id("a");
    let b = vocab.get_id("b");
    assert_eq!(vocab.pairs(), &[wvec::BpePair::new(a, b, 6)]);
}

#[test]
fn train_merges_the_most_frequent_pair_first() {
    let pretokens = ["aab", "aab", "aab", "aac"];
    let vocab = train(&pretokens, 20);
    let a = vocab.get_id("a");
    let first = vocab.pairs()[0];
    assert_eq!((first.left, first.right), (a, a));
    assert_eq!(vocab.get_token(first.id), Some("aa"));
}

#[test]
fn train_on_empty_corpus_holds_only_specials() {
    let pretokens = ["", ""];
    let vocab = train(&pretokens, 50);
    assert_eq!(vocab.len(), 4);
    assert_eq!(vocab.pairs_count(), 0);
}

#[test]
fn train_size_stays_within_bounds() {
    let pretokens = ["hello", "hello", "world", "help"];
    let initial = 4 + 8;
    for target in [0usize, 5, 11, 12, 14, 100] {
        let vocab = train(&pretokens, target);
        assert!(vocab.len() >= initial);
        assert!(vocab.len() <= target.max(initial));
    }
}

#[test]
fn train_is_deterministic() {
    let pretokens = ["ab", "cd", "ab", "cd", "ef"];
    let v1 = train(&pretokens, 12);
    let v2 = train(&pretokens, 12);
    assert_eq!(v1.pairs(), v2.pairs());
    assert_eq!(v1.iter(), v2.iter());
    let a = v1.get_id("a");
    let b = v1.get_id("b");
    assert_eq!((v1.pairs()[0].left, v1.pairs()[0].right), (a, b));
}

#[test]
fn init_char_sequences_keeps_registered_characters() {
    let (w, c) = words(&[("bab", 2), ("cb", 1)]);
    let mut vocab = Vocabulary::new();
    let a = vocab.add_token("a".to_string());
    let (sequences, freqs) = init_char_sequences(&w, &c, &mut vocab);
    assert_eq!(a, 4);
    assert_eq!(vocab.len(), 7);
    assert_eq!(vocab.get_token(5), Some("b"));
    assert_eq!(vocab.get_token(6), Some("c"));
    assert_eq!(sequences, vec![vec![5, 4, 5], vec![6, 5]]);
    assert_eq!(freqs, vec![2, 1]);
}
