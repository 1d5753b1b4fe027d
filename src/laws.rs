//! Properties that relate several operations of the library.
use vstd::prelude::*;
use vstd::utf8::{decode_utf8, encode_utf8, valid_utf8};

use crate::codec::{
    le32, magic, pair_record, pairs_bytes, parse_pairs, parse_tokens, parse_vocab, read32, replay,
    token_record, tokens_bytes, vocab_bytes, FORMAT_VERSION, MAX_TOKEN_LEN,
};
use crate::decode::{decoded, id_text};
use crate::encode::{apply_rules, char_ids, encoded, lookup_id, merge_scan, merged};
use crate::train::{chars_of, trained};
use crate::types::{BpePair, BpeTokenId};
use crate::vocab::{unique_texts, Vocabulary};

verus! {

proof fn lemma_decoded_cons(tokens: Seq<Seq<char>>, x: BpeTokenId, rest: Seq<BpeTokenId>)
    ensures
        decoded(tokens, seq![x] + rest) == id_text(tokens, x) + decoded(tokens, rest),
{
    assert((seq![x] + rest)[0] == x);
    assert((seq![x] + rest).drop_first() =~= rest);
}

proof fn lemma_merge_scan_text(tokens: Seq<Seq<char>>, cur: BpeTokenId, rest: Seq<BpeTokenId>, l: BpeTokenId, r: BpeTokenId, m: BpeTokenId)
    requires
        id_text(tokens, m) == id_text(tokens, l) + id_text(tokens, r),
    ensures
        decoded(tokens, merge_scan(cur, rest, l, r, m)) == id_text(tokens, cur) + decoded(tokens, rest),
    decreases rest.len(),
{
    if rest.len() == 0 {
        lemma_decoded_cons(tokens, cur, rest);
    } else {
        let tail = rest.drop_first();
        lemma_decoded_cons(tokens, rest[0], tail);
        assert(rest =~= seq![rest[0]] + tail);
        if cur == l && rest[0] == r {
            lemma_merge_scan_text(tokens, m, tail, l, r, m);
            assert(id_text(tokens, l) + id_text(tokens, r) + decoded(tokens, tail) =~= id_text(tokens, cur) + (id_text(tokens, rest[0]) + decoded(tokens, tail)));
        } else {
            lemma_merge_scan_text(tokens, rest[0], tail, l, r, m);
            lemma_decoded_cons(tokens, cur, merge_scan(rest[0], tail, l, r, m));
            assert(id_text(tokens, cur) + (id_text(tokens, rest[0]) + decoded(tokens, tail)) =~= id_text(tokens, cur) + decoded(tokens, rest));
        }
    }
}

proof fn lemma_merged_text(tokens: Seq<Seq<char>>, ids: Seq<BpeTokenId>, l: BpeTokenId, r: BpeTokenId, m: BpeTokenId)
    requires
        id_text(tokens, m) == id_text(tokens, l) + id_text(tokens, r),
    ensures
        decoded(tokens, merged(ids, l, r, m)) == decoded(tokens, ids),
{
    if ids.len() > 0 {
        lemma_merge_scan_text(tokens, ids[0], ids.drop_first(), l, r, m);
        lemma_decoded_cons(tokens, ids[0], ids.drop_first());
        assert(ids =~= seq![ids[0]] + ids.drop_first());
    }
}

proof fn lemma_apply_rules_text(v: Vocabulary, rules: Seq<BpePair>, ids: Seq<BpeTokenId>)
    requires
        v.rules_sound(),
        rules.len() <= v.rules().len(),
        rules == v.rules().take(rules.len() as int),
    ensures
        decoded(v.tokens(), apply_rules(rules, ids)) == decoded(v.tokens(), ids),
    decreases rules.len(),
{
    if rules.len() > 0 {
        let k = rules.len() - 1;
        let p = rules.last();
        assert(p == v.rules()[k]);
        assert(rules.drop_last() =~= v.rules().take(k));
        lemma_apply_rules_text(v, rules.drop_last(), ids);
        lemma_merged_text(v.tokens(), apply_rules(rules.drop_last(), ids), p.left, p.right, p.id);
    }
}

proof fn lemma_char_ids_text(tokens: Seq<Seq<char>>, s: Seq<char>)
    requires
        unique_texts(tokens),
        tokens.len() <= u32::MAX,
        forall|i: int| 0 <= i < s.len() ==> tokens.contains(seq![#[trigger] s[i]]),
    ensures
        decoded(tokens, char_ids(tokens, s)) == s,
    decreases s.len(),
{
    if s.len() > 0 {
        let c = s[0];
        assert(tokens.contains(seq![c]));
        let j = choose|j: int| 0 <= j < tokens.len() && tokens[j] == seq![c];
        let id = lookup_id(tokens, seq![c]);
        let j2 = choose|i: int| 0 <= i < tokens.len() && tokens[i] == seq![c];
        assert(tokens[j2] == seq![c]);
        assert(id as int == j2);
        assert(tokens[id as int] == seq![c]);
        assert(char_ids(tokens, s).drop_first() =~= char_ids(tokens, s.drop_first()));
        assert forall|i: int| 0 <= i < s.drop_first().len() implies tokens.contains(seq![#[trigger] s.drop_first()[i]]) by {
            assert(s.drop_first()[i] == s[i + 1]);
        }
        lemma_char_ids_text(tokens, s.drop_first());
        assert(s =~= seq![c] + s.drop_first());
    }
}

/// Decoding what `encode` gives back for a text whose every character is a
/// registered token gives back the text, for any vocabulary whose rules are
/// sound (which `train` guarantees).
pub proof fn lemma_round_trip(v: Vocabulary, s: Seq<char>)
    requires
        v.wf(),
        v.rules_sound(),
        forall|i: int| 0 <= i < s.len() ==> v.tokens().contains(seq![#[trigger] s[i]]),
    ensures
        decoded(v.tokens(), encoded(v.tokens(), v.rules(), s)) == s,
{
    assert(v.rules().take(v.rules().len() as int) =~= v.rules());
    lemma_apply_rules_text(v, v.rules(), char_ids(v.tokens(), s));
    lemma_char_ids_text(v.tokens(), s);
}

/// For a vocabulary trained on `corpus` (which registers every character of
/// the corpus and records only sound rules), every text made of characters
/// of the corpus decodes back from its encoding.
pub proof fn lemma_trained_round_trip(corpus: Seq<Seq<char>>, v: Vocabulary, s: Seq<char>)
    requires
        v.wf(),
        v.rules_sound(),
        forall|c: char| #[trigger] chars_of(corpus).contains(c) ==> v.tokens().contains(seq![c]),
        forall|i: int| 0 <= i < s.len() ==> chars_of(corpus).contains(#[trigger] s[i]),
    ensures
        decoded(v.tokens(), encoded(v.tokens(), v.rules(), s)) == s,
{
    assert forall|i: int| 0 <= i < s.len() implies v.tokens().contains(seq![#[trigger] s[i]]) by {
        assert(chars_of(corpus).contains(s[i]));
    }
    lemma_round_trip(v, s);
}

/// Training is deterministic: two vocabularies trained on the same corpus
/// with the same target hold the same tokens at the same ids and the same
/// rules in the same order.
pub proof fn lemma_train_deterministic(corpus: Seq<Seq<char>>, target: int, v1: Vocabulary, v2: Vocabulary)
    requires
        (v1.tokens(), v1.rules()) == trained(corpus, target),
        (v2.tokens(), v2.rules()) == trained(corpus, target),
    ensures
        v1.tokens() == v2.tokens(),
        v1.rules() == v2.rules(),
{
}

proof fn lemma_parse_tokens_of(ts: Seq<Seq<char>>, tail: Seq<u8>)
    requires
        forall|i: int| 0 <= i < ts.len() ==> encode_utf8(#[trigger] ts[i]).len() <= MAX_TOKEN_LEN,
    ensures
        parse_tokens(tokens_bytes(ts) + tail, ts.len()) == Ok::<(Seq<Seq<char>>, Seq<u8>), crate::codec::FormatError>((ts, tail)),
    decreases ts.len(),
{
    broadcast use vstd::utf8::encode_utf8_valid_utf8, vstd::utf8::encode_utf8_decode_utf8;

    if ts.len() == 0 {
        assert(tokens_bytes(ts) + tail =~= tail);
        assert(ts =~= Seq::<Seq<char>>::empty());
    } else {
        let t = ts[0];
        let e = encode_utf8(t);
        let n = e.len() as u32;
        let b = tokens_bytes(ts) + tail;
        let rest = ts.drop_first();
        assert(encode_utf8(ts[0]).len() <= MAX_TOKEN_LEN);
        vstd::bytes::lemma_auto_spec_u32_to_from_le_bytes();
        assert(b =~= le32(n) + (e + (tokens_bytes(rest) + tail)));
        assert(b.take(4) =~= le32(n));
        assert(read32(b) == n);
        assert(b.subrange(4, 4 + n as int) =~= e);
        assert(b.subrange(4 + n as int, b.len() as int) =~= tokens_bytes(rest) + tail);
        assert forall|i: int| 0 <= i < rest.len() implies encode_utf8(#[trigger] rest[i]).len() <= MAX_TOKEN_LEN by {
            assert(rest[i] == ts[i + 1]);
        }
        lemma_parse_tokens_of(rest, tail);
        assert(decode_utf8(b.subrange(4, 4 + n as int)) == t);
        assert(valid_utf8(b.subrange(4, 4 + n as int)));
        assert(((ts.len() - 1) as nat) == rest.len());
        assert(seq![t] + rest =~= ts);
        assert(parse_tokens(b, ts.len()) == Ok::<(Seq<Seq<char>>, Seq<u8>), crate::codec::FormatError>((seq![t] + rest, tail)));
    }
}

proof fn lemma_parse_pairs_of(ps: Seq<BpePair>, tail: Seq<u8>)
    ensures
        parse_pairs(pairs_bytes(ps) + tail, ps.len()) == Ok::<Seq<BpePair>, crate::codec::FormatError>(ps),
    decreases ps.len(),
{
    if ps.len() > 0 {
        let p = ps[0];
        let b = pairs_bytes(ps) + tail;
        let rest = ps.drop_first();
        vstd::bytes::lemma_auto_spec_u32_to_from_le_bytes();
        assert(b =~= le32(p.left) + (le32(p.right) + (le32(p.id) + (pairs_bytes(rest) + tail))));
        assert(b.take(4) =~= le32(p.left));
        assert(b.subrange(4, 12).take(4) =~= le32(p.right));
        assert(b.subrange(8, 12).take(4) =~= le32(p.id));
        assert(b.subrange(12, b.len() as int) =~= pairs_bytes(rest) + tail);
        lemma_parse_pairs_of(rest, tail);
        assert(read32(b) == p.left);
        assert(read32(b.subrange(4, 12)) == p.right);
        assert(read32(b.subrange(8, 12)) == p.id);
        assert(seq![p] + rest =~= ps);
        assert(((ps.len() - 1) as nat) == rest.len());
    } else {
        assert(ps =~= Seq::<BpePair>::empty());
    }
}

proof fn lemma_replay_unique(ts: Seq<Seq<char>>)
    requires
        unique_texts(ts),
    ensures
        replay(ts) == ts,
    decreases ts.len(),
{
    if ts.len() > 0 {
        let init = ts.drop_last();
        assert(unique_texts(init)) by {
            assert forall|i: int, j: int| 0 <= i < init.len() && 0 <= j < init.len() && i != j implies init[i] != init[j] by {
                assert(init[i] == ts[i] && init[j] == ts[j]);
            }
        }
        lemma_replay_unique(init);
        if init.contains(ts.last()) {
            let i = choose|i: int| 0 <= i < init.len() && init[i] == ts.last();
            assert(ts[i] == ts[ts.len() - 1]);
        }
        assert(init.push(ts.last()) =~= ts);
    }
}

/// Reading back what `to_bytes` wrote gives the same tokens, in the same id
/// order, and the same rules in the same order, for every well-formed
/// vocabulary that the format can hold.
pub proof fn lemma_save_load(v: Vocabulary)
    requires
        v.wf(),
        v.rules().len() <= u32::MAX,
        forall|i: int| 0 <= i < v.tokens().len() ==> encode_utf8(#[trigger] v.tokens()[i]).len() <= MAX_TOKEN_LEN,
    ensures
        parse_vocab(vocab_bytes(v.tokens(), v.rules())) == Ok::<(Seq<Seq<char>>, Seq<BpePair>), crate::codec::FormatError>((v.tokens(), v.rules())),
        replay(v.tokens()) == v.tokens(),
{
    let ts = v.tokens();
    let ps = v.rules();
    let b = vocab_bytes(ts, ps);
    vstd::bytes::lemma_auto_spec_u32_to_from_le_bytes();
    let body = tokens_bytes(ts) + pairs_bytes(ps);
    assert(b =~= magic() + le32(FORMAT_VERSION) + le32(ts.len() as u32) + le32(ps.len() as u32) + body);
    assert(b.take(4) =~= magic());
    assert(b.subrange(4, 8).take(4) =~= le32(FORMAT_VERSION));
    assert(b.subrange(8, 12).take(4) =~= le32(ts.len() as u32));
    assert(b.subrange(12, 16).take(4) =~= le32(ps.len() as u32));
    assert(b.subrange(16, b.len() as int) =~= body);
    lemma_parse_tokens_of(ts, pairs_bytes(ps));
    assert(pairs_bytes(ps) + Seq::<u8>::empty() =~= pairs_bytes(ps));
    lemma_parse_pairs_of(ps, Seq::empty());
    lemma_replay_unique(ts);
}

} // verus!
