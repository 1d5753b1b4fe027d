//! Training: learning merge rules from a corpus of pre-tokens.
use vstd::prelude::*;
use vstd::string::*;

use crate::encode::{apply_rules, char_ids, encoded, lemma_merged_empty, lookup_id, merge_scan, merged};
use crate::text_util::char_to_string;
use crate::types::{special_texts, BpePair, BpeTokenId};
use crate::vocab::{unique_texts, Vocabulary};

verus! {

/// The views of a sequence of string slices.
pub open spec fn texts(ps: Seq<&str>) -> Seq<Seq<char>> {
    ps.map_values(|s: &str| s@)
}

/// The views of a sequence of strings.
pub open spec fn word_texts(ws: Seq<String>) -> Seq<Seq<char>> {
    ws.map_values(|w: String| w@)
}

/// How many entries of `s` equal `w`.
pub open spec fn count_in(s: Seq<Seq<char>>, w: Seq<char>) -> nat
    decreases s.len(),
{
    if s.len() == 0 {
        0
    } else {
        count_in(s.drop_last(), w) + if s.last() == w {
            1nat
        } else {
            0nat
        }
    }
}

/// The distinct non-empty entries of `s`, in the order of their first
/// occurrence.
pub open spec fn distinct_nonempty(s: Seq<Seq<char>>) -> Seq<Seq<char>>
    decreases s.len(),
{
    if s.len() == 0 {
        Seq::empty()
    } else {
        let d = distinct_nonempty(s.drop_last());
        if s.last().len() == 0 || d.contains(s.last()) {
            d
        } else {
            d.push(s.last())
        }
    }
}

/// Sum of a sequence of counts.
pub open spec fn sum_counts(s: Seq<u32>) -> nat
    decreases s.len(),
{
    if s.len() == 0 {
        0
    } else {
        sum_counts(s.drop_last()) + s.last() as nat
    }
}

/// Every character that occurs in one of `words`.
pub open spec fn chars_of(words: Seq<Seq<char>>) -> Set<char> {
    Set::new(|c: char| exists|k: int| 0 <= k < words.len() && #[trigger] words[k].contains(c))
}

/// Size of the vocabulary before any merge: the special tokens and one token
/// per distinct character of the corpus.
pub open spec fn initial_size(pretokens: Seq<Seq<char>>) -> nat {
    4 + chars_of(pretokens).len()
}

/// Number of positions `i` where `s[i]`, `s[i + 1]` is the pair `p`.
pub open spec fn occ(s: Seq<BpeTokenId>, p: (BpeTokenId, BpeTokenId)) -> nat
    decreases s.len(),
{
    if s.len() < 2 {
        0
    } else {
        (if s[0] == p.0 && s[1] == p.1 {
            1nat
        } else {
            0nat
        }) + occ(s.drop_first(), p)
    }
}

/// Occurrences of the pair `p` over all sequences, each weighted by its
/// sequence's frequency.
pub open spec fn pair_count(seqs: Seq<Seq<BpeTokenId>>, freqs: Seq<u32>, p: (BpeTokenId, BpeTokenId)) -> nat
    decreases seqs.len(),
{
    if seqs.len() == 0 || freqs.len() == 0 {
        0
    } else {
        pair_count(seqs.drop_last(), freqs.drop_last(), p) + freqs.last() as nat * occ(seqs.last(), p)
    }
}

/// Total length of the sequences, each weighted by its frequency.
pub open spec fn weight(seqs: Seq<Seq<BpeTokenId>>, freqs: Seq<u32>) -> nat
    decreases seqs.len(),
{
    if seqs.len() == 0 || freqs.len() == 0 {
        0
    } else {
        weight(seqs.drop_last(), freqs.drop_last()) + freqs.last() as nat * seqs.last().len()
    }
}

/// Total number of symbols in the sequences.
pub open spec fn total_len(seqs: Seq<Seq<BpeTokenId>>) -> nat
    decreases seqs.len(),
{
    if seqs.len() == 0 {
        0
    } else {
        total_len(seqs.drop_last()) + seqs.last().len()
    }
}

/// `s` has the pair `p` at position `i`.
pub open spec fn has_pair_at(s: Seq<BpeTokenId>, i: int, p: (BpeTokenId, BpeTokenId)) -> bool {
    0 <= i && i + 1 < s.len() && s[i] == p.0 && s[i + 1] == p.1
}

/// The pair `a` is at most `b` in lexicographic order.
pub open spec fn pair_le(a: (BpeTokenId, BpeTokenId), b: (BpeTokenId, BpeTokenId)) -> bool {
    a.0 < b.0 || (a.0 == b.0 && a.1 <= b.1)
}

/// The text of `ids`, where each id names a token of `tokens`.
pub open spec fn spelled(tokens: Seq<Seq<char>>, ids: Seq<BpeTokenId>, w: Seq<char>) -> bool {
    &&& ids.len() == w.len()
    &&& forall|j: int| 0 <= j < ids.len() ==> (#[trigger] ids[j] as int) < tokens.len()
    &&& forall|j: int| 0 <= j < ids.len() ==> #[trigger] tokens[ids[j] as int] == seq![w[j]]
}

/// `a` begins with `b`.
pub open spec fn extends<T>(a: Seq<T>, b: Seq<T>) -> bool {
    b.len() <= a.len() && forall|i: int| 0 <= i < b.len() ==> #[trigger] a[i] == b[i]
}

pub open spec fn ids_below(seqs: Seq<Seq<BpeTokenId>>, n: int) -> bool {
    forall|k: int, j: int| 0 <= k < seqs.len() && 0 <= j < seqs[k].len() ==> (#[trigger] seqs[k][j] as int) < n
}

proof fn lemma_count_in_step(s: Seq<Seq<char>>, i: int, w: Seq<char>)
    requires
        0 <= i < s.len(),
    ensures
        count_in(s.take(i + 1), w) == count_in(s.take(i), w) + if s[i] == w { 1nat } else { 0nat },
{
    assert(s.take(i + 1).drop_last() =~= s.take(i));
}

proof fn lemma_sum_update(s: Seq<u32>, k: int, v: u32)
    requires
        0 <= k < s.len(),
    ensures
        sum_counts(s.update(k, v)) + s[k] == sum_counts(s) + v,
    decreases s.len(),
{
    if k == s.len() - 1 {
        assert(s.update(k, v).drop_last() =~= s.drop_last());
    } else {
        assert(s.update(k, v).drop_last() =~= s.drop_last().update(k, v));
        lemma_sum_update(s.drop_last(), k, v);
    }
}

proof fn lemma_sum_bound(s: Seq<u32>, k: int)
    requires
        0 <= k < s.len(),
    ensures
        s[k] <= sum_counts(s),
    decreases s.len(),
{
    if k < s.len() - 1 {
        lemma_sum_bound(s.drop_last(), k);
    }
}

proof fn lemma_count_absent(s: Seq<Seq<char>>, w: Seq<char>)
    requires
        forall|m: int| 0 <= m < s.len() ==> s[m] != w,
    ensures
        count_in(s, w) == 0,
    decreases s.len(),
{
    if s.len() > 0 {
        lemma_count_absent(s.drop_last(), w);
    }
}

/// The position of the word `p` in `words`, if it is there.
fn position_of(words: &Vec<String>, p: &str) -> (r: Option<usize>)
    ensures
        match r {
            Some(k) => k < words.len() && words@[k as int]@ == p@,
            None => forall|j: int| 0 <= j < words.len() ==> (#[trigger] words@[j])@ != p@,
        },
{
    let key = p.to_owned();
    let mut k: usize = 0;
    while k < words.len()
        invariant
            k <= words.len(),
            key@ == p@,
            forall|j: int| 0 <= j < k ==> (#[trigger] words@[j])@ != p@,
        decreases words.len() - k,
    {
        if words[k] == key {
            return Some(k);
        }
        k += 1;
    }
    None
}

/// Counts each distinct non-empty pre-token. The result lists the distinct
/// pre-tokens in the order of their first occurrence, with their counts.
#[verifier::rlimit(40)]
pub fn count_pretoken_freqs(pretokens: &[&str]) -> (r: (Vec<String>, Vec<u32>))
    requires
        pretokens@.len() <= u32::MAX,
    ensures
        r.0.len() == r.1.len(),
        unique_texts(word_texts(r.0@)),
        forall|k: int| 0 <= k < r.0.len() ==> (#[trigger] r.0@[k])@.len() > 0,
        forall|k: int| 0 <= k < r.0.len() ==> r.1@[k] == count_in(texts(pretokens@), (#[trigger] r.0@[k])@),
        forall|i: int| 0 <= i < pretokens@.len() && (#[trigger] texts(pretokens@)[i]).len() > 0 ==> exists|k: int| 0 <= k < r.0.len() && (#[trigger] r.0@[k])@ == texts(pretokens@)[i],
        forall|k: int| 0 <= k < r.0.len() ==> texts(pretokens@).contains((#[trigger] r.0@[k])@),
        sum_counts(r.1@) <= pretokens@.len(),
        word_texts(r.0@) == distinct_nonempty(texts(pretokens@)),
{
    let ghost all = texts(pretokens@);
    let ghost mut ws: Seq<Seq<char>> = Seq::empty();
    let mut words: Vec<String> = Vec::new();
    let mut counts: Vec<u32> = Vec::new();
    let n = pretokens.len();
    let mut i: usize = 0;
    while i < n
        invariant
            n == pretokens@.len(),
            n == all.len(),
            n <= u32::MAX,
            all == texts(pretokens@),
            i <= n,
            words.len() == counts.len(),
            ws == word_texts(words@),
            unique_texts(ws),
            forall|k: int| 0 <= k < ws.len() ==> (#[trigger] ws[k]).len() > 0,
            forall|k: int| 0 <= k < ws.len() ==> counts@[k] == count_in(all.take(i as int), #[trigger] ws[k]),
            forall|m: int| 0 <= m < i && (#[trigger] all[m]).len() > 0 ==> ws.contains(all[m]),
            forall|k: int| 0 <= k < ws.len() ==> all.take(i as int).contains(#[trigger] ws[k]),
            sum_counts(counts@) <= i,
            ws == distinct_nonempty(all.take(i as int)),
        decreases n - i,
    {
        let p = pretokens[i];
        let ghost cb = counts@;
        let ghost wb = ws;
        proof {
            assert(all[i as int] == p@);
            assert(all.take(i as int + 1) =~= all.take(i as int).push(p@));
            assert(all.take(i as int + 1).drop_last() =~= all.take(i as int));
            assert(all.take(i as int + 1).last() == p@);
            assert forall|k: int| 0 <= k < ws.len() implies count_in(all.take(i + 1), #[trigger] ws[k]) == count_in(all.take(i as int), ws[k]) + if p@ == ws[k] { 1nat } else { 0nat } by {
                lemma_count_in_step(all, i as int, ws[k]);
            }
        }
        if !p.is_empty() {
            let pos = position_of(&words, p);
            if let Some(k) = pos {
                let c = counts[k];
                proof {
                    assert(ws[k as int] == p@);
                    assert(ws.contains(p@));
                    lemma_sum_bound(counts@, k as int);
                    lemma_sum_update(counts@, k as int, (c + 1) as u32);
                }
                counts.set(k, c + 1);
                proof {
                    assert forall|j: int| 0 <= j < ws.len() implies counts@[j] == count_in(all.take(i + 1), #[trigger] ws[j]) by {
                        if j != k {
                            assert(ws[j] != ws[k as int]);
                        }
                    }
                    assert forall|k2: int| 0 <= k2 < ws.len() implies all.take(i + 1).contains(#[trigger] ws[k2]) by {
                        let m = choose|m: int| 0 <= m < i && all.take(i as int)[m] == ws[k2];
                        assert(all.take(i + 1)[m] == ws[k2]);
                    }
                }
            } else {
                proof {
                    assert forall|j: int| 0 <= j < ws.len() implies #[trigger] ws[j] != p@ by {
                        assert(ws[j] == words@[j]@);
                    }
                    assert forall|m: int| 0 <= m < i implies #[trigger] all.take(i as int)[m] != p@ by {
                        if all[m] == p@ {
                            assert(ws.contains(all[m]));
                        }
                    }
                    lemma_count_absent(all.take(i as int), p@);
                    assert(!ws.contains(p@));
                }
                words.push(p.to_owned());
                counts.push(1);
                proof {
                    ws = ws.push(p@);
                    assert(ws =~= word_texts(words@));
                    assert(counts@.drop_last() =~= cb);
                    assert forall|k2: int| 0 <= k2 < ws.len() implies all.take(i + 1).contains(#[trigger] ws[k2]) by {
                        if k2 < wb.len() {
                            assert(wb[k2] == ws[k2]);
                            let m = choose|m: int| 0 <= m < i && all.take(i as int)[m] == wb[k2];
                            assert(all.take(i + 1)[m] == ws[k2]);
                        } else {
                            assert(all.take(i + 1)[i as int] == ws[k2]);
                        }
                    }
                    assert forall|m: int| 0 <= m < i + 1 && (#[trigger] all[m]).len() > 0 implies ws.contains(all[m]) by {
                        if m < i {
                            assert(wb.contains(all[m]));
                            let k2 = choose|k2: int| 0 <= k2 < wb.len() && wb[k2] == all[m];
                            assert(ws[k2] == all[m]);
                        } else {
                            assert(ws[wb.len() as int] == all[m]);
                        }
                    }
                    assert forall|j: int| 0 <= j < ws.len() implies counts@[j] == count_in(all.take(i + 1), #[trigger] ws[j]) by {
                        lemma_count_in_step(all, i as int, ws[j]);
                        if j < wb.len() {
                            assert(wb[j] == ws[j]);
                            assert(wb[j] != p@);
                            assert(counts@[j] == cb[j]);
                        }
                    }
                }
            }
        } else {
            proof {
                assert forall|k2: int| 0 <= k2 < ws.len() implies all.take(i + 1).contains(#[trigger] ws[k2]) by {
                    let m = choose|m: int| 0 <= m < i && all.take(i as int)[m] == ws[k2];
                    assert(all.take(i + 1)[m] == ws[k2]);
                }
            }
        }
        i += 1;
    }
    proof {
        assert(all.take(n as int) =~= all);
        assert(ws =~= word_texts(words@));
        assert forall|k: int| 0 <= k < words.len() implies texts(pretokens@).contains((#[trigger] words@[k])@) by {
            assert(ws[k] == words@[k]@);
            assert(all.contains(ws[k]));
        }
        assert forall|m: int| 0 <= m < pretokens@.len() && (#[trigger] texts(pretokens@)[m]).len() > 0 implies exists|k: int| 0 <= k < words.len() && (#[trigger] words@[k])@ == texts(pretokens@)[m] by {
            assert(ws.contains(all[m]));
            let k = choose|k: int| 0 <= k < ws.len() && ws[k] == all[m];
            assert(words@[k]@ == ws[k]);
        }
        assert forall|k: int| 0 <= k < words.len() implies counts@[k] == count_in(texts(pretokens@), (#[trigger] words@[k])@) by {
            assert(ws[k] == words@[k]@);
        }
        assert forall|k: int| 0 <= k < words.len() implies (#[trigger] words@[k])@.len() > 0 by {
            assert(ws[k] == words@[k]@);
        }
    }
    (words, counts)
}

} // verus!

verus! {

/// The words one after the other.
pub open spec fn concat_words(ws: Seq<Seq<char>>) -> Seq<char>
    decreases ws.len(),
{
    if ws.len() == 0 {
        Seq::empty()
    } else {
        concat_words(ws.drop_last()) + ws.last()
    }
}

/// The distinct characters of `s`, in the order of their first occurrence.
pub open spec fn distinct_chars(s: Seq<char>) -> Seq<char>
    decreases s.len(),
{
    if s.len() == 0 {
        Seq::empty()
    } else if distinct_chars(s.drop_last()).contains(s.last()) {
        distinct_chars(s.drop_last())
    } else {
        distinct_chars(s.drop_last()).push(s.last())
    }
}

/// The distinct characters of the words, in the order of their first
/// occurrence.
pub open spec fn first_chars(ws: Seq<Seq<char>>) -> Seq<char> {
    distinct_chars(concat_words(ws))
}

/// The token texts for a sequence of distinct characters, one each.
pub open spec fn char_tokens(cs: Seq<char>) -> Seq<Seq<char>> {
    cs.map_values(|c: char| seq![c])
}

/// There are fewer than 0x110000 distinct characters.
proof fn lemma_distinct_chars_bound(cs: Seq<char>)
    requires
        cs.no_duplicates(),
    ensures
        cs.len() <= 0x110000,
{
    broadcast use vstd::utf8::char_is_scalar, vstd::utf8::char_u32_cast;

    cs.unique_seq_to_set();
    let s = cs.to_set();
    let f = |c: char| c as u32 as int;
    let img = s.map(f);
    assert(vstd::relations::injective_on(f, s)) by {
        assert forall|a: char, b: char| s.contains(a) && s.contains(b) && #[trigger] f(a) == #[trigger] f(b) implies a == b by {
            let ua = a as u32;
            let ub = b as u32;
            vstd::utf8::char_u32_cast(a, ua);
            vstd::utf8::char_u32_cast(b, ub);
        }
    }
    vstd::set_lib::lemma_map_size(s, img, f);
    vstd::set_lib::lemma_int_range(0, 0x110000);
    assert(img.subset_of(vstd::set_lib::set_int_range(0, 0x110000))) by {
        assert forall|x: int| img.contains(x) implies vstd::set_lib::set_int_range(0, 0x110000).contains(x) by {
            let c = choose|c: char| s.contains(c) && f(c) == x;
            vstd::utf8::char_is_scalar(c);
        }
    }
    vstd::set_lib::lemma_len_subset(img, vstd::set_lib::set_int_range(0, 0x110000));
}

/// The distinct characters of `s` whose one-character text is not among
/// `tokens`, in the order of their first occurrence.
pub open spec fn new_chars(tokens: Seq<Seq<char>>, s: Seq<char>) -> Seq<char>
    decreases s.len(),
{
    if s.len() == 0 {
        Seq::empty()
    } else if tokens.contains(seq![s.last()]) || new_chars(tokens, s.drop_last()).contains(s.last()) {
        new_chars(tokens, s.drop_last())
    } else {
        new_chars(tokens, s.drop_last()).push(s.last())
    }
}

/// Some tokens, then one token per character.
proof fn lemma_char_tokens_contains(base: Seq<Seq<char>>, cs: Seq<char>, c: char)
    ensures
        (base + char_tokens(cs)).contains(seq![c]) <==> (base.contains(seq![c]) || cs.contains(c)),
{
    let t = base + char_tokens(cs);
    if t.contains(seq![c]) {
        let i = choose|i: int| 0 <= i < t.len() && t[i] == seq![c];
        if i < base.len() {
            assert(base[i] == seq![c]);
        } else {
            assert(t[i] == seq![cs[i - base.len()]]);
            assert(seq![c][0] == cs[i - base.len()]);
        }
    }
    if base.contains(seq![c]) {
        let i = choose|i: int| 0 <= i < base.len() && base[i] == seq![c];
        assert(t[i] == seq![c]);
    }
    if cs.contains(c) {
        let j = choose|j: int| 0 <= j < cs.len() && cs[j] == c;
        assert(t[j + base.len()] == seq![c]);
    }
}

/// No special token is one character long.
proof fn lemma_specials_not_chars(c: char)
    ensures
        !special_texts().contains(seq![c]),
{
    if special_texts().contains(seq![c]) {
        let i = choose|i: int| 0 <= i < 4 && special_texts()[i] == seq![c];
        assert(special_texts()[i].len() == 5);
    }
}

/// Next to the special tokens every character is new.
proof fn lemma_new_chars_specials(s: Seq<char>)
    ensures
        new_chars(special_texts(), s) == distinct_chars(s),
    decreases s.len(),
{
    if s.len() > 0 {
        lemma_new_chars_specials(s.drop_last());
        lemma_specials_not_chars(s.last());
    }
}

/// Splits each pre-token into characters, registering each character as a
/// token, and returns one id sequence per non-empty pre-token with its count.
#[verifier::rlimit(60)]
pub fn init_char_sequences(words: &[String], counts: &[u32], vocab: &mut Vocabulary) -> (r: (
    Vec<Vec<BpeTokenId>>,
    Vec<u32>,
))
    requires
        old(vocab).wf(),
        old(vocab).tokens().len() + 0x110000 < u32::MAX,
        words@.len() == counts@.len(),
    ensures
        final(vocab).wf(),
        final(vocab).rules() == old(vocab).rules(),
        final(vocab).tokens() == old(vocab).tokens() + char_tokens(new_chars(old(vocab).tokens(), concat_words(word_texts(words@)))),
        new_chars(old(vocab).tokens(), concat_words(word_texts(words@))).no_duplicates(),
        forall|c: char| #[trigger] new_chars(old(vocab).tokens(), concat_words(word_texts(words@))).contains(c) <==> (chars_of(word_texts(words@)).contains(c) && !old(vocab).tokens().contains(seq![c])),
        forall|c: char| #[trigger] chars_of(word_texts(words@)).contains(c) ==> final(vocab).tokens().contains(seq![c]),
        r.0.len() == r.1.len(),
        r.0.len() <= words@.len(),
        ids_below(r.0@.map_values(|v: Vec<BpeTokenId>| v@), final(vocab).tokens().len() as int),
        (forall|k: int| 0 <= k < words@.len() ==> (#[trigger] words@[k])@.len() > 0) ==> {
            &&& r.0.len() == words@.len()
            &&& r.1@ == counts@
            &&& forall|k: int| 0 <= k < words@.len() ==> spelled(final(vocab).tokens(), (#[trigger] r.0@[k])@, words@[k]@)
        },
{
    let ghost ws = word_texts(words@);
    let ghost base = vocab.tokens();
    let ghost mut cs: Seq<char> = Seq::empty();
    let mut sequences: Vec<Vec<BpeTokenId>> = Vec::new();
    assert(concat_words(ws.take(0)) =~= Seq::<char>::empty());
    let mut freqs: Vec<u32> = Vec::new();
    let ghost all_nonempty = forall|k: int| 0 <= k < words@.len() ==> (#[trigger] words@[k])@.len() > 0;
    assert(char_tokens(cs) =~= Seq::<Seq<char>>::empty());
    assert(base + char_tokens(cs) =~= base);
    let mut k: usize = 0;
    while k < words.len()
        invariant
            ws == word_texts(words@),
            words@.len() == counts@.len(),
            k <= words@.len(),
            vocab.wf(),
            vocab.rules() == old(vocab).rules(),
            base == old(vocab).tokens(),
            base.len() + 0x110000 < u32::MAX,
            vocab.tokens() == base + char_tokens(cs),
            cs.no_duplicates(),
            forall|c: char| cs.contains(c) <==> (chars_of(ws.take(k as int)).contains(c) && !base.contains(seq![c])),
            cs == new_chars(base, concat_words(ws.take(k as int))),
            sequences.len() == freqs.len(),
            sequences.len() <= k,
            ids_below(sequences@.map_values(|v: Vec<BpeTokenId>| v@), vocab.tokens().len() as int),
            all_nonempty == forall|k2: int| 0 <= k2 < words@.len() ==> (#[trigger] words@[k2])@.len() > 0,
            all_nonempty ==> sequences.len() == k && freqs@ == counts@.take(k as int),
            all_nonempty ==> forall|m: int| 0 <= m < k ==> spelled(vocab.tokens(), (#[trigger] sequences@[m])@, ws[m]),
        decreases words@.len() - k,
    {
        let ghost before = vocab.tokens();
        let ghost sv0 = sequences@.map_values(|v: Vec<BpeTokenId>| v@);
        let ghost seq0 = sequences@;
        let w = words[k].as_str();
        let ghost wv = ws[k as int];
        assert(w@ == wv);
        let mut ids: Vec<BpeTokenId> = Vec::new();
        assert(concat_words(ws.take(k as int)) + wv.take(0) =~= concat_words(ws.take(k as int)));
        for ch in it: w.chars()
            invariant
                ws == word_texts(words@),
                k < words@.len(),
                wv == ws[k as int],
                it.seq() == wv,
                vocab.wf(),
                vocab.rules() == old(vocab).rules(),
                base.len() + 0x110000 < u32::MAX,
                vocab.tokens() == base + char_tokens(cs),
                extends(vocab.tokens(), before),
                cs.no_duplicates(),
                forall|c: char| cs.contains(c) <==> ((chars_of(ws.take(k as int)).contains(c) || wv.take(it.index() as int).contains(c)) && !base.contains(seq![c])),
                cs == new_chars(base, concat_words(ws.take(k as int)) + wv.take(it.index() as int)),
                spelled(vocab.tokens(), ids@, wv.take(it.index() as int)),
        {
            let ghost t0 = vocab.tokens();
            let ghost cs_in = cs;
            proof {
                let pre = concat_words(ws.take(k as int));
                assert((pre + wv.take(it.index() as int + 1)).drop_last() =~= pre + wv.take(it.index() as int));
                assert((pre + wv.take(it.index() as int + 1)).last() == ch);
            }
            let ghost ids0 = ids@;
            proof {
                assert(spelled(t0, ids0, wv.take(it.index() as int)));
                assert(ids0.len() == it.index());
                lemma_distinct_chars_bound(cs);
                lemma_char_tokens_contains(base, cs, ch);
            }
            let id = vocab.add_token(char_to_string(ch));
            proof {
                if !(base.contains(seq![ch]) || cs.contains(ch)) {
                    cs = cs.push(ch);
                    assert(char_tokens(cs) =~= char_tokens(cs.drop_last()).push(seq![ch]));
                    assert(base + char_tokens(cs) =~= t0.push(seq![ch]));
                }
                assert(wv.take(it.index() as int + 1) =~= wv.take(it.index() as int).push(ch));
                assert(extends(vocab.tokens(), t0));
                assert forall|c: char| cs.contains(c) <==> ((chars_of(ws.take(k as int)).contains(c) || wv.take(it.index() as int + 1).contains(c)) && !base.contains(seq![c])) by {
                    assert(cs.contains(c) <==> (cs_in.contains(c) || (c == ch && !base.contains(seq![ch])))) by {
                        if cs_in.contains(ch) || base.contains(seq![ch]) {
                            assert(cs == cs_in);
                        } else {
                            assert(cs == cs_in.push(ch));
                            if cs_in.contains(c) {
                                let j = choose|j: int| 0 <= j < cs_in.len() && cs_in[j] == c;
                                assert(cs[j] == c);
                            }
                            if cs.contains(c) && c != ch {
                                let j = choose|j: int| 0 <= j < cs.len() && cs[j] == c;
                                assert(cs_in[j] == c);
                            }
                            assert(cs[cs.len() - 1] == ch);
                        }
                    }
                    if wv.take(it.index() as int + 1).contains(c) && c != ch {
                        let j = choose|j: int| 0 <= j < it.index() + 1 && #[trigger] wv.take(it.index() as int + 1)[j] == c;
                        assert(wv.take(it.index() as int)[j] == c);
                    }
                    if wv.take(it.index() as int).contains(c) {
                        let j = choose|j: int| 0 <= j < it.index() && #[trigger] wv.take(it.index() as int)[j] == c;
                        assert(wv.take(it.index() as int + 1)[j] == c);
                    }
                    if c == ch {
                        assert(wv.take(it.index() as int + 1)[it.index() as int] == c);
                    }
                }
            }
            ids.push(id);
            proof {
                assert forall|j: int| 0 <= j < ids@.len() implies (ids@[j] as int) < vocab.tokens().len() && #[trigger] vocab.tokens()[ids@[j] as int] == seq![wv.take(it.index() as int + 1)[j]] by {
                    if j < ids@.len() - 1 {
                        assert(wv.take(it.index() as int + 1)[j] == wv.take(it.index() as int)[j]);
                        assert(ids@[j] == ids0[j]);
                        assert(t0[ids0[j] as int] == seq![wv.take(it.index() as int)[j]]);
                        assert((ids@[j] as int) < t0.len());
                        assert(t0[ids@[j] as int] == vocab.tokens()[ids@[j] as int]);
                    }
                }
            }
        }
        proof {
            assert(wv.take(wv.len() as int) =~= wv);
            assert(ws.take(k as int + 1) =~= ws.take(k as int).push(wv));
            assert(ws.take(k as int + 1).drop_last() =~= ws.take(k as int));
            assert(concat_words(ws.take(k as int + 1)) == concat_words(ws.take(k as int)) + wv);
            assert forall|c: char| cs.contains(c) <==> (chars_of(ws.take(k as int + 1)).contains(c) && !base.contains(seq![c])) by {
                if chars_of(ws.take(k as int)).contains(c) {
                    let m = choose|m: int| 0 <= m < k && #[trigger] ws.take(k as int)[m].contains(c);
                    assert(ws.take(k as int + 1)[m] == ws.take(k as int)[m]);
                }
                if wv.contains(c) {
                    assert(ws.take(k as int + 1)[k as int] == wv);
                }
                if chars_of(ws.take(k as int + 1)).contains(c) {
                    let m = choose|m: int| 0 <= m < k + 1 && #[trigger] ws.take(k as int + 1)[m].contains(c);
                    if m < k {
                        assert(ws.take(k as int)[m] == ws.take(k as int + 1)[m]);
                    }
                }
            }
        }
        if ids.len() > 0 {
            let ghost sb = sequences@;
            let ghost fb = freqs@;
            sequences.push(ids);
            freqs.push(counts[k]);
            proof {
                assert(freqs@ =~= fb.push(counts@[k as int]));
                if all_nonempty {
                    assert(counts@.take(k as int + 1) =~= counts@.take(k as int).push(counts@[k as int]));
                }
                assert forall|m: int| 0 <= m < sequences@.len() - 1 implies (#[trigger] sequences@[m])@ == sb[m]@ by {}
            }
        } else {
            proof {
                assert(wv.len() == 0);
                assert(!all_nonempty);
            }
        }
        proof {
            let sv = sequences@.map_values(|v: Vec<BpeTokenId>| v@);
            assert forall|m: int, j: int| 0 <= m < sv.len() && 0 <= j < sv[m].len() implies (#[trigger] sv[m][j] as int) < vocab.tokens().len() by {
                assert(sv[m] == sequences@[m]@);
                if m < sv0.len() {
                    assert(sv0[m] == seq0[m]@);
                    assert(sequences@[m] == seq0[m]);
                    assert((sv0[m][j] as int) < before.len());
                } else {
                    assert(sequences@[m]@ == ids@);
                    assert(vocab.tokens()[ids@[j] as int] == seq![wv[j]]);
                }
            }
            if all_nonempty {
                assert forall|m: int| 0 <= m < k + 1 implies spelled(vocab.tokens(), (#[trigger] sequences@[m])@, ws[m]) by {
                    if m < k {
                        assert forall|j: int| 0 <= j < sequences@[m]@.len() implies (sequences@[m]@[j] as int) < vocab.tokens().len() && #[trigger] vocab.tokens()[sequences@[m]@[j] as int] == seq![ws[m][j]] by {
                            assert(sequences@[m] == seq0[m]);
                            assert(before[seq0[m]@[j] as int] == seq![ws[m][j]]);
                            assert((sequences@[m]@[j] as int) < before.len());
                            assert(before[sequences@[m]@[j] as int] == vocab.tokens()[sequences@[m]@[j] as int]);
                        }
                    }
                }
            }
        }
        k += 1;
    }
    proof {
        assert(ws.take(words@.len() as int) =~= ws);
        assert forall|c: char| #[trigger] chars_of(ws).contains(c) implies vocab.tokens().contains(seq![c]) by {
            lemma_char_tokens_contains(base, cs, c);
        }
        if all_nonempty {
            assert(counts@.take(words@.len() as int) =~= counts@);
        }
    }
    (sequences, freqs)
}

/// A sequence of distinct characters that holds exactly the elements of a set
/// has the set's size.
proof fn lemma_distinct_chars_set(cs: Seq<char>, s: Set<char>)
    requires
        cs.no_duplicates(),
        forall|c: char| cs.contains(c) <==> s.contains(c),
    ensures
        s.len() == cs.len(),
        s.finite(),
{
    cs.unique_seq_to_set();
    assert(cs.to_set() =~= s);
}

} // verus!

verus! {

/// The views of a sequence of id vectors.
pub open spec fn seq_views(seqs: Seq<Vec<BpeTokenId>>) -> Seq<Seq<BpeTokenId>> {
    seqs.map_values(|v: Vec<BpeTokenId>| v@)
}

/// The pairs of a list of pair counts.
pub open spec fn count_keys(r: Seq<((BpeTokenId, BpeTokenId), u64)>) -> Seq<(BpeTokenId, BpeTokenId)> {
    r.map_values(|e: ((BpeTokenId, BpeTokenId), u64)| e.0)
}

/// The pair `p` stands next to itself somewhere in one of `seqs`.
pub open spec fn occurs(seqs: Seq<Seq<BpeTokenId>>, p: (BpeTokenId, BpeTokenId)) -> bool {
    exists|k: int, i: int| 0 <= k < seqs.len() && #[trigger] has_pair_at(seqs[k], i, p)
}

/// What has been counted of `p` after the first `k` sequences and the first
/// `n` symbols of sequence `k`.
pub open spec fn partial_count(seqs: Seq<Seq<BpeTokenId>>, freqs: Seq<u32>, k: int, n: int, p: (BpeTokenId, BpeTokenId)) -> nat {
    pair_count(seqs.take(k), freqs.take(k), p) + freqs[k] as nat * occ(seqs[k].take(n), p)
}

proof fn lemma_occ_push(t: Seq<BpeTokenId>, x: BpeTokenId, p: (BpeTokenId, BpeTokenId))
    ensures
        occ(t.push(x), p) == occ(t, p) + if t.len() >= 1 && t.last() == p.0 && x == p.1 { 1nat } else { 0nat },
    decreases t.len(),
{
    let tx = t.push(x);
    if t.len() >= 2 {
        assert(tx.drop_first() =~= t.drop_first().push(x));
        assert(tx[0] == t[0] && tx[1] == t[1]);
        assert(t.drop_first().last() == t.last());
        lemma_occ_push(t.drop_first(), x, p);
    } else if t.len() == 1 {
        assert(tx.drop_first() =~= seq![x]);
        assert(occ(seq![x], p) == 0);
        assert(tx[0] == t.last() && tx[1] == x);
    } else {
        assert(tx.len() == 1);
    }
}

proof fn lemma_occ_le(t: Seq<BpeTokenId>, p: (BpeTokenId, BpeTokenId))
    ensures
        occ(t, p) <= t.len(),
        t.len() >= 1 ==> occ(t, p) < t.len(),
    decreases t.len(),
{
    if t.len() >= 2 {
        lemma_occ_le(t.drop_first(), p);
    }
}

proof fn lemma_occ_at(t: Seq<BpeTokenId>, i: int, p: (BpeTokenId, BpeTokenId))
    requires
        has_pair_at(t, i, p),
    ensures
        occ(t, p) > 0,
    decreases i,
{
    if i > 0 {
        lemma_occ_at(t.drop_first(), i - 1, p);
    }
}

proof fn lemma_pair_count_le_weight(seqs: Seq<Seq<BpeTokenId>>, freqs: Seq<u32>, p: (BpeTokenId, BpeTokenId))
    ensures
        pair_count(seqs, freqs, p) <= weight(seqs, freqs),
    decreases seqs.len(),
{
    if seqs.len() > 0 && freqs.len() > 0 {
        lemma_pair_count_le_weight(seqs.drop_last(), freqs.drop_last(), p);
        lemma_occ_le(seqs.last(), p);
        vstd::arithmetic::mul::lemma_mul_inequality(occ(seqs.last(), p) as int, seqs.last().len() as int, freqs.last() as int);
        assert(freqs.last() as nat * occ(seqs.last(), p) <= freqs.last() as nat * seqs.last().len()) by (nonlinear_arith)
            requires occ(seqs.last(), p) <= seqs.last().len();
    }
}

proof fn lemma_weight_prefix(seqs: Seq<Seq<BpeTokenId>>, freqs: Seq<u32>, k: int)
    requires
        0 <= k <= seqs.len(),
        seqs.len() == freqs.len(),
    ensures
        weight(seqs.take(k), freqs.take(k)) <= weight(seqs, freqs),
    decreases seqs.len(),
{
    if k < seqs.len() {
        assert(seqs.drop_last().take(k) =~= seqs.take(k));
        assert(freqs.drop_last().take(k) =~= freqs.take(k));
        lemma_weight_prefix(seqs.drop_last(), freqs.drop_last(), k);
    } else {
        assert(seqs.take(k) =~= seqs);
        assert(freqs.take(k) =~= freqs);
    }
}

proof fn lemma_partial_bound(seqs: Seq<Seq<BpeTokenId>>, freqs: Seq<u32>, k: int, n: int, p: (BpeTokenId, BpeTokenId))
    requires
        seqs.len() == freqs.len(),
        0 <= k < seqs.len(),
        0 <= n <= seqs[k].len(),
    ensures
        partial_count(seqs, freqs, k, n, p) <= weight(seqs, freqs),
{
    let f = freqs[k] as nat;
    lemma_pair_count_le_weight(seqs.take(k), freqs.take(k), p);
    lemma_occ_le(seqs[k].take(n), p);
    assert(f * occ(seqs[k].take(n), p) <= f * seqs[k].len()) by (nonlinear_arith)
        requires occ(seqs[k].take(n), p) <= n, n <= seqs[k].len();
    assert(seqs.take(k + 1).drop_last() =~= seqs.take(k));
    assert(freqs.take(k + 1).drop_last() =~= freqs.take(k));
    lemma_weight_prefix(seqs, freqs, k + 1);
}

/// The position of the pair `p` in a list of pair counts, if it is there.
fn position_of_pair(r: &Vec<((BpeTokenId, BpeTokenId), u64)>, p: (BpeTokenId, BpeTokenId)) -> (res: Option<usize>)
    ensures
        match res {
            Some(i) => i < r.len() && r@[i as int].0 == p,
            None => !count_keys(r@).contains(p),
        },
{
    let mut i: usize = 0;
    while i < r.len()
        invariant
            i <= r.len(),
            forall|j: int| 0 <= j < i ==> (#[trigger] r@[j]).0 != p,
        decreases r.len() - i,
    {
        if r[i].0.0 == p.0 && r[i].0.1 == p.1 {
            return Some(i);
        }
        i += 1;
    }
    proof {
        if count_keys(r@).contains(p) {
            let j = choose|j: int| 0 <= j < r.len() && count_keys(r@)[j] == p;
            assert(r@[j].0 == p);
        }
    }
    None
}

/// Adds `f` to the count of `p`, appending `p` with the count `f` where it is
/// not listed yet.
fn add_count(r: &mut Vec<((BpeTokenId, BpeTokenId), u64)>, p: (BpeTokenId, BpeTokenId), f: u64)
    requires
        count_keys(old(r)@).no_duplicates(),
        forall|e: int| 0 <= e < old(r).len() && (#[trigger] old(r)@[e]).0 == p ==> old(r)@[e].1 + f <= u64::MAX,
    ensures
        count_keys(final(r)@).no_duplicates(),
        old(r)@.len() <= final(r)@.len() <= old(r)@.len() + 1,
        count_keys(old(r)@).contains(p) ==> count_keys(final(r)@) == count_keys(old(r)@),
        !count_keys(old(r)@).contains(p) ==> count_keys(final(r)@) == count_keys(old(r)@).push(p),
        forall|e: int| 0 <= e < final(r).len() ==> (#[trigger] final(r)@[e]).1 == (if e < old(r)@.len() { old(r)@[e].1 as int } else { 0int }) + if final(r)@[e].0 == p { f as int } else { 0int },
{
    match position_of_pair(r, p) {
        Some(e) => {
            let c = r[e].1;
            r.set(e, (p, c + f));
            proof {
                assert(count_keys(r@) =~= count_keys(old(r)@));
                assert(count_keys(old(r)@)[e as int] == p);
                assert forall|e2: int| 0 <= e2 < r.len() && e2 != e implies (#[trigger] r@[e2]).0 != p by {
                    assert(count_keys(old(r)@)[e2] == old(r)@[e2].0);
                }
            }
        },
        None => {
            r.push((p, f));
            proof {
                assert(count_keys(r@) =~= count_keys(old(r)@).push(p));
                assert forall|e: int| 0 <= e < old(r)@.len() implies (#[trigger] old(r)@[e]).0 != p by {
                    assert(count_keys(old(r)@)[e] == old(r)@[e].0);
                }
            }
        },
    }
}

/// Counting the window that ends at `j` of sequence `k` adds its frequency
/// to its pair and nothing to any other.
proof fn lemma_count_window(sv: Seq<Seq<BpeTokenId>>, fv: Seq<u32>, k: int, j: int, p: (BpeTokenId, BpeTokenId))
    requires
        sv.len() == fv.len(),
        0 <= k < sv.len(),
        1 <= j < sv[k].len(),
        p == (sv[k][j - 1], sv[k][j]),
        weight(sv, fv) <= u64::MAX,
    ensures
        forall|q: (BpeTokenId, BpeTokenId)| #[trigger] partial_count(sv, fv, k, j + 1, q) == partial_count(sv, fv, k, j, q) + if q == p { fv[k] as nat } else { 0nat },
        partial_count(sv, fv, k, j + 1, p) <= u64::MAX,
        has_pair_at(sv[k], j - 1, p),
{
    let s = sv[k];
    let f = fv[k];
    assert(s.take(j + 1) =~= s.take(j).push(s[j]));
    assert forall|q: (BpeTokenId, BpeTokenId)| #[trigger] partial_count(sv, fv, k, j + 1, q) == partial_count(sv, fv, k, j, q) + if q == p { f as nat } else { 0nat } by {
        lemma_occ_push(s.take(j), s[j], q);
        assert(s.take(j).last() == s[j - 1]);
        let o = occ(s.take(j), q);
        if q == p {
            assert(f as nat * (o + 1) == f as nat * o + f as nat) by (nonlinear_arith);
        }
    }
    lemma_partial_bound(sv, fv, k, j + 1, p);
}

/// The invariants of the pair count carry over one window.
proof fn lemma_count_step(sv: Seq<Seq<BpeTokenId>>, fv: Seq<u32>, k: int, j: int, rb: Seq<((BpeTokenId, BpeTokenId), u64)>, ra: Seq<((BpeTokenId, BpeTokenId), u64)>, p: (BpeTokenId, BpeTokenId))
    requires
        sv.len() == fv.len(),
        0 <= k < sv.len(),
        1 <= j < sv[k].len(),
        has_pair_at(sv[k], j - 1, p),
        forall|q: (BpeTokenId, BpeTokenId)| #[trigger] partial_count(sv, fv, k, j + 1, q) == partial_count(sv, fv, k, j, q) + if q == p { fv[k] as nat } else { 0nat },
        forall|e: int| 0 <= e < rb.len() ==> (#[trigger] rb[e]).1 == partial_count(sv, fv, k, j, rb[e].0),
        forall|e: int| 0 <= e < rb.len() ==> occurs(sv, (#[trigger] rb[e]).0),
        forall|q: (BpeTokenId, BpeTokenId)| !count_keys(rb).contains(q) ==> partial_count(sv, fv, k, j, q) == 0,
        rb.len() <= ra.len() <= rb.len() + 1,
        count_keys(rb).contains(p) ==> count_keys(ra) == count_keys(rb),
        !count_keys(rb).contains(p) ==> count_keys(ra) == count_keys(rb).push(p),
        forall|e: int| 0 <= e < ra.len() ==> (#[trigger] ra[e]).1 == (if e < rb.len() { rb[e].1 as int } else { 0int }) + if ra[e].0 == p { fv[k] as int } else { 0int },
    ensures
        forall|e: int| 0 <= e < ra.len() ==> (#[trigger] ra[e]).1 == partial_count(sv, fv, k, j + 1, ra[e].0),
        forall|e: int| 0 <= e < ra.len() ==> occurs(sv, (#[trigger] ra[e]).0),
        forall|q: (BpeTokenId, BpeTokenId)| !count_keys(ra).contains(q) ==> partial_count(sv, fv, k, j + 1, q) == 0,
        count_keys(ra).contains(p),
        forall|q: (BpeTokenId, BpeTokenId)| count_keys(rb).contains(q) ==> count_keys(ra).contains(q),
{
    assert forall|e: int| 0 <= e < ra.len() implies (#[trigger] ra[e]).1 == partial_count(sv, fv, k, j + 1, ra[e].0) by {
        assert(count_keys(ra)[e] == ra[e].0);
        if e < rb.len() {
            assert(count_keys(ra)[e] == count_keys(rb)[e]);
            assert(count_keys(rb)[e] == rb[e].0);
        } else {
            assert(count_keys(ra)[e] == p);
        }
    }
    assert forall|e: int| 0 <= e < ra.len() implies occurs(sv, (#[trigger] ra[e]).0) by {
        assert(count_keys(ra)[e] == ra[e].0);
        if e < rb.len() {
            assert(count_keys(ra)[e] == count_keys(rb)[e]);
            assert(count_keys(rb)[e] == rb[e].0);
        } else {
            assert(count_keys(ra)[e] == p);
        }
    }
    assert forall|q: (BpeTokenId, BpeTokenId)| count_keys(rb).contains(q) implies count_keys(ra).contains(q) by {
        let e = choose|e: int| 0 <= e < rb.len() && count_keys(rb)[e] == q;
        assert(count_keys(ra)[e] == q);
    }
    if !count_keys(rb).contains(p) {
        assert(count_keys(ra)[rb.len() as int] == p);
    }
}

/// Adds the pairs of sequence `k` to the counts of the sequences before it.
#[verifier::rlimit(60)]
fn count_sequence_pairs(sequences: &[Vec<BpeTokenId>], freqs: &[u32], k: usize, r: &mut Vec<((BpeTokenId, BpeTokenId), u64)>)
    requires
        sequences@.len() == freqs@.len(),
        k < sequences@.len(),
        weight(seq_views(sequences@), freqs@) <= u64::MAX,
        count_keys(old(r)@).no_duplicates(),
        forall|e: int| 0 <= e < old(r)@.len() ==> (#[trigger] old(r)@[e]).1 == pair_count(seq_views(sequences@).take(k as int), freqs@.take(k as int), old(r)@[e].0),
        forall|e: int| 0 <= e < old(r)@.len() ==> occurs(seq_views(sequences@), (#[trigger] old(r)@[e]).0),
        forall|p: (BpeTokenId, BpeTokenId)| !count_keys(old(r)@).contains(p) ==> pair_count(seq_views(sequences@).take(k as int), freqs@.take(k as int), p) == 0,
    ensures
        count_keys(final(r)@).no_duplicates(),
        forall|e: int| 0 <= e < final(r)@.len() ==> (#[trigger] final(r)@[e]).1 == pair_count(seq_views(sequences@).take(k + 1), freqs@.take(k + 1), final(r)@[e].0),
        forall|e: int| 0 <= e < final(r)@.len() ==> occurs(seq_views(sequences@), (#[trigger] final(r)@[e]).0),
        forall|p: (BpeTokenId, BpeTokenId)| !count_keys(final(r)@).contains(p) ==> pair_count(seq_views(sequences@).take(k + 1), freqs@.take(k + 1), p) == 0,
        forall|p: (BpeTokenId, BpeTokenId)| count_keys(old(r)@).contains(p) ==> count_keys(final(r)@).contains(p),
        forall|i: int| 0 <= i && i + 1 < sequences@[k as int]@.len() ==> count_keys(final(r)@).contains((#[trigger] sequences@[k as int]@[i], sequences@[k as int]@[i + 1])),
{
    let ghost sv = seq_views(sequences@);
    let ghost fv = freqs@;
    let s = &sequences[k];
    let f = freqs[k];
    let n = s.len();
    assert(sv[k as int] == s@);
    proof {
        assert(sv.take(k as int + 1).drop_last() =~= sv.take(k as int));
        assert(fv.take(k as int + 1).drop_last() =~= fv.take(k as int));
    }
    if n < 2 {
        proof {
            assert forall|q: (BpeTokenId, BpeTokenId)| #[trigger] pair_count(sv.take(k + 1), fv.take(k + 1), q) == pair_count(sv.take(k as int), fv.take(k as int), q) by {
                assert(occ(s@, q) == 0);
                assert(f as nat * 0 == 0);
            }
        }
        return;
    }
    let mut j: usize = 1;
    proof {
        assert forall|q: (BpeTokenId, BpeTokenId)| #[trigger] partial_count(sv, fv, k as int, 1, q) == pair_count(sv.take(k as int), fv.take(k as int), q) by {
            assert(s@.take(1).len() == 1);
            assert(occ(s@.take(1), q) == 0);
            assert(f as nat * 0 == 0);
        }
    }
    while j < n
        invariant
            sv == seq_views(sequences@),
            fv == freqs@,
            sv.len() == fv.len(),
            k < sv.len(),
            s@ == sv[k as int],
            n == s@.len(),
            f == fv[k as int],
            1 <= j <= n,
            weight(sv, fv) <= u64::MAX,
            count_keys(r@).no_duplicates(),
            forall|e: int| 0 <= e < r.len() ==> (#[trigger] r@[e]).1 == partial_count(sv, fv, k as int, j as int, r@[e].0),
            forall|e: int| 0 <= e < r.len() ==> occurs(sv, (#[trigger] r@[e]).0),
            forall|p: (BpeTokenId, BpeTokenId)| !count_keys(r@).contains(p) ==> partial_count(sv, fv, k as int, j as int, p) == 0,
            forall|p: (BpeTokenId, BpeTokenId)| count_keys(old(r)@).contains(p) ==> count_keys(r@).contains(p),
            forall|i: int| 0 <= i && i + 1 < j ==> count_keys(r@).contains((#[trigger] s@[i], s@[i + 1])),
        decreases n - j,
    {
        let p = (s[j - 1], s[j]);
        let ghost rb = r@;
        proof {
            lemma_count_window(sv, fv, k as int, j as int, p);
        }
        add_count(r, p, f as u64);
        proof {
            lemma_count_step(sv, fv, k as int, j as int, rb, r@, p);
        }
        j += 1;
    }
    proof {
        assert(s@.take(n as int) =~= s@);
        assert(sequences@[k as int]@ == s@);
    }
}

/// Counts every adjacent pair over all sequences, each occurrence weighted by
/// its sequence's frequency. The result lists each pair once, in the order of
/// its first occurrence, with its total.
pub fn count_pair_freqs(sequences: &[Vec<BpeTokenId>], freqs: &[u32]) -> (r: Vec<((BpeTokenId, BpeTokenId), u64)>)
    requires
        sequences@.len() == freqs@.len(),
        weight(seq_views(sequences@), freqs@) <= u64::MAX,
    ensures
        count_keys(r@).no_duplicates(),
        forall|e: int| 0 <= e < r.len() ==> (#[trigger] r@[e]).1 == pair_count(seq_views(sequences@), freqs@, r@[e].0),
        forall|e: int| 0 <= e < r.len() ==> occurs(seq_views(sequences@), (#[trigger] r@[e]).0),
        forall|k: int, i: int| 0 <= k < sequences@.len() && 0 <= i && i + 1 < sequences@[k]@.len() ==> count_keys(r@).contains((#[trigger] sequences@[k]@[i], sequences@[k]@[i + 1])),
{
    let ghost sv = seq_views(sequences@);
    let ghost fv = freqs@;
    let mut r: Vec<((BpeTokenId, BpeTokenId), u64)> = Vec::new();
    let mut k: usize = 0;
    proof {
        assert(count_keys(r@) =~= Seq::<(BpeTokenId, BpeTokenId)>::empty());
    }
    while k < sequences.len()
        invariant
            sv == seq_views(sequences@),
            fv == freqs@,
            sv.len() == fv.len(),
            k <= sv.len(),
            weight(sv, fv) <= u64::MAX,
            count_keys(r@).no_duplicates(),
            forall|e: int| 0 <= e < r.len() ==> (#[trigger] r@[e]).1 == pair_count(sv.take(k as int), fv.take(k as int), r@[e].0),
            forall|e: int| 0 <= e < r.len() ==> occurs(sv, (#[trigger] r@[e]).0),
            forall|p: (BpeTokenId, BpeTokenId)| !count_keys(r@).contains(p) ==> pair_count(sv.take(k as int), fv.take(k as int), p) == 0,
            forall|k2: int, i: int| 0 <= k2 < k && 0 <= i && i + 1 < sequences@[k2]@.len() ==> count_keys(r@).contains((#[trigger] sequences@[k2]@[i], sequences@[k2]@[i + 1])),
        decreases sv.len() - k,
    {
        let ghost rb = r@;
        count_sequence_pairs(sequences, freqs, k, &mut r);
        proof {
            assert forall|k2: int, i: int| 0 <= k2 < k + 1 && 0 <= i && i + 1 < sequences@[k2]@.len() implies count_keys(r@).contains((#[trigger] sequences@[k2]@[i], sequences@[k2]@[i + 1])) by {
                if k2 < k {
                    assert(count_keys(rb).contains((sequences@[k2]@[i], sequences@[k2]@[i + 1])));
                }
            }
        }
        k += 1;
    }
    proof {
        assert(sv.take(sv.len() as int) =~= sv);
        assert(fv.take(fv.len() as int) =~= fv);
    }
    r
}

} // verus!

verus! {

/// Entry `b` has the highest count, and among the entries with that count the
/// smallest pair.
pub open spec fn is_best(r: Seq<((BpeTokenId, BpeTokenId), u64)>, b: int) -> bool {
    &&& 0 <= b < r.len()
    &&& forall|i: int| 0 <= i < r.len() ==> (#[trigger] r[i]).1 < r[b].1 || (r[i].1 == r[b].1 && pair_le(r[b].0, r[i].0))
}

/// The pair with the highest count; among equal counts, the smallest pair.
pub fn find_most_frequent_pair(pair_counts: &[((BpeTokenId, BpeTokenId), u64)]) -> (r: (BpeTokenId, BpeTokenId))
    requires
        pair_counts@.len() > 0,
    ensures
        exists|b: int| is_best(pair_counts@, b) && pair_counts@[b].0 == r,
{
    let mut best: usize = 0;
    let mut i: usize = 1;
    while i < pair_counts.len()
        invariant
            0 <= best < i <= pair_counts@.len(),
            forall|j: int| 0 <= j < i ==> (#[trigger] pair_counts@[j]).1 < pair_counts@[best as int].1 || (pair_counts@[j].1 == pair_counts@[best as int].1 && pair_le(pair_counts@[best as int].0, pair_counts@[j].0)),
        decreases pair_counts@.len() - i,
    {
        let (p, c) = pair_counts[i];
        let (bp, bc) = pair_counts[best];
        if c > bc || (c == bc && (p.0 < bp.0 || (p.0 == bp.0 && p.1 < bp.1))) {
            best = i;
        }
        i += 1;
    }
    assert(is_best(pair_counts@, best as int));
    pair_counts[best].0
}

/// Registers the token made of `left`'s text followed by `right`'s, records
/// the rule (`left`, `right`) -> that token, and returns its id.
pub fn merge_tokens(vocab: &mut Vocabulary, left: BpeTokenId, right: BpeTokenId) -> (id: BpeTokenId)
    requires
        old(vocab).wf(),
        (left as int) < old(vocab).tokens().len(),
        (right as int) < old(vocab).tokens().len(),
        old(vocab).tokens().len() < u32::MAX,
    ensures
        final(vocab).wf(),
        extends(final(vocab).tokens(), old(vocab).tokens()),
        final(vocab).tokens().len() <= old(vocab).tokens().len() + 1,
        (id as int) < final(vocab).tokens().len(),
        final(vocab).tokens()[id as int] == old(vocab).tokens()[left as int] + old(vocab).tokens()[right as int],
        old(vocab).tokens().contains(final(vocab).tokens()[id as int]) ==> final(vocab).tokens() == old(vocab).tokens(),
        !old(vocab).tokens().contains(final(vocab).tokens()[id as int]) ==> final(vocab).tokens() == old(vocab).tokens().push(final(vocab).tokens()[id as int]),
        final(vocab).rules() == old(vocab).rules().push(BpePair { left, right, id }),
{
    let l = vocab.get_token(left).unwrap();
    let r = vocab.get_token(right).unwrap();
    let mut merged_str = String::from_str(l);
    merged_str.append(r);
    let id = vocab.add_token(merged_str);
    vocab.add_pair(left, right, id);
    id
}

/// Rewrites every sequence by one pass of the merge (`left`, `right`) ->
/// `merged_id`.
pub fn apply_merge(sequences: &mut Vec<Vec<BpeTokenId>>, left: BpeTokenId, right: BpeTokenId, merged_id: BpeTokenId)
    ensures
        final(sequences)@.len() == old(sequences)@.len(),
        forall|k: int| 0 <= k < final(sequences)@.len() ==> (#[trigger] final(sequences)@[k])@ == merged(old(sequences)@[k]@, left, right, merged_id),
{
    let mut out: Vec<Vec<BpeTokenId>> = Vec::with_capacity(sequences.len());
    let mut k: usize = 0;
    while k < sequences.len()
        invariant
            k <= sequences@.len(),
            out@.len() == k,
            forall|m: int| 0 <= m < k ==> (#[trigger] out@[m])@ == merged(sequences@[m]@, left, right, merged_id),
        decreases sequences@.len() - k,
    {
        let mut s = sequences[k].clone();
        assert(s@ =~= sequences@[k as int]@);
        crate::encode::apply_merge(&mut s, left, right, merged_id);
        out.push(s);
        k += 1;
    }
    *sequences = out;
}

} // verus!

verus! {

proof fn lemma_merge_scan_facts(cur: BpeTokenId, rest: Seq<BpeTokenId>, l: BpeTokenId, r: BpeTokenId, m: BpeTokenId, n: int)
    ensures
        merge_scan(cur, rest, l, r, m).len() <= rest.len() + 1,
        ((cur == l && rest.len() > 0 && rest[0] == r) || occ(rest, (l, r)) > 0) ==> merge_scan(cur, rest, l, r, m).len() < rest.len() + 1,
        ((cur as int) < n && (m as int) < n && forall|j: int| 0 <= j < rest.len() ==> (#[trigger] rest[j] as int) < n) ==> forall|j: int| 0 <= j < merge_scan(cur, rest, l, r, m).len() ==> (#[trigger] merge_scan(cur, rest, l, r, m)[j] as int) < n,
    decreases rest.len(),
{
    if rest.len() > 0 {
        let tail = rest.drop_first();
        lemma_merge_scan_facts(m, tail, l, r, m, n);
        lemma_merge_scan_facts(rest[0], tail, l, r, m, n);
        if !(cur == l && rest[0] == r) {
            let res = merge_scan(cur, rest, l, r, m);
            let sub = merge_scan(rest[0], tail, l, r, m);
            assert(res == seq![cur] + sub);
            if occ(rest, (l, r)) > 0 {
                if !(rest.len() >= 2 && rest[0] == l && rest[1] == r) {
                    assert(occ(tail, (l, r)) > 0);
                }
            }
            if (cur as int) < n && (m as int) < n && forall|j: int| 0 <= j < rest.len() ==> (#[trigger] rest[j] as int) < n {
                assert forall|j: int| 0 <= j < res.len() implies (#[trigger] res[j] as int) < n by {
                    if j > 0 {
                        assert(res[j] == sub[j - 1]);
                    }
                }
            }
        } else {
            if (cur as int) < n && (m as int) < n && forall|j: int| 0 <= j < rest.len() ==> (#[trigger] rest[j] as int) < n {
                assert forall|j: int| 0 <= j < tail.len() implies (#[trigger] tail[j] as int) < n by {
                    assert(tail[j] == rest[j + 1]);
                }
            }
        }
    }
}

proof fn lemma_merged_facts(s: Seq<BpeTokenId>, l: BpeTokenId, r: BpeTokenId, m: BpeTokenId, n: int)
    ensures
        merged(s, l, r, m).len() <= s.len(),
        occ(s, (l, r)) > 0 ==> merged(s, l, r, m).len() < s.len(),
        ((m as int) < n && forall|j: int| 0 <= j < s.len() ==> (#[trigger] s[j] as int) < n) ==> forall|j: int| 0 <= j < merged(s, l, r, m).len() ==> (#[trigger] merged(s, l, r, m)[j] as int) < n,
{
    if s.len() > 0 {
        let tail = s.drop_first();
        lemma_merge_scan_facts(s[0], tail, l, r, m, n);
        if occ(s, (l, r)) > 0 {
            if !(s[0] == l && s[1] == r) {
                assert(occ(tail, (l, r)) > 0);
            }
        }
        if (m as int) < n && forall|j: int| 0 <= j < s.len() ==> (#[trigger] s[j] as int) < n {
            assert(s[0] < n);
            assert forall|j: int| 0 <= j < tail.len() implies (#[trigger] tail[j] as int) < n by {
                assert(tail[j] == s[j + 1]);
            }
        }
    }
}

proof fn lemma_total_len_shrinks(a: Seq<Seq<BpeTokenId>>, b: Seq<Seq<BpeTokenId>>, k: int)
    requires
        a.len() == b.len(),
        forall|i: int| 0 <= i < a.len() ==> (#[trigger] b[i]).len() <= a[i].len(),
        0 <= k < a.len(),
        b[k].len() < a[k].len(),
    ensures
        total_len(b) < total_len(a),
    decreases a.len(),
{
    if k < a.len() - 1 {
        lemma_total_len_shrinks(a.drop_last(), b.drop_last(), k);
    } else {
        lemma_total_len_le(a.drop_last(), b.drop_last());
    }
}

proof fn lemma_total_len_le(a: Seq<Seq<BpeTokenId>>, b: Seq<Seq<BpeTokenId>>)
    requires
        a.len() == b.len(),
        forall|i: int| 0 <= i < a.len() ==> (#[trigger] b[i]).len() <= a[i].len(),
    ensures
        total_len(b) <= total_len(a),
    decreases a.len(),
{
    if a.len() > 0 {
        lemma_total_len_le(a.drop_last(), b.drop_last());
    }
}

proof fn lemma_weight_bound(sv: Seq<Seq<BpeTokenId>>, fv: Seq<u32>, bound: nat)
    requires
        sv.len() == fv.len(),
        forall|k: int| 0 <= k < sv.len() ==> (#[trigger] sv[k]).len() <= bound,
    ensures
        weight(sv, fv) <= sum_counts(fv) * bound,
    decreases sv.len(),
{
    if sv.len() > 0 {
        lemma_weight_bound(sv.drop_last(), fv.drop_last(), bound);
        let f = fv.last() as nat;
        let len = sv.last().len();
        assert(f * len <= f * bound) by (nonlinear_arith)
            requires len <= bound;
        assert(sum_counts(fv) * bound == sum_counts(fv.drop_last()) * bound + f * bound) by (nonlinear_arith)
            requires sum_counts(fv) == sum_counts(fv.drop_last()) + f;
    }
}

/// `p` occurs in `seqs` and no occurring pair beats it: none has a higher
/// weighted count, and none with the same count is smaller.
pub open spec fn is_best_pair(seqs: Seq<Seq<BpeTokenId>>, freqs: Seq<u32>, p: (BpeTokenId, BpeTokenId)) -> bool {
    &&& occurs(seqs, p)
    &&& forall|q: (BpeTokenId, BpeTokenId)| #[trigger] occurs(seqs, q) ==> pair_count(seqs, freqs, q) < pair_count(seqs, freqs, p) || (pair_count(seqs, freqs, q) == pair_count(seqs, freqs, p) && pair_le(p, q))
}

/// The words, each encoded with the first `m` rules.
pub open spec fn encoded_words(tokens: Seq<Seq<char>>, rules: Seq<BpePair>, ws: Seq<Seq<char>>, m: int) -> Seq<Seq<BpeTokenId>> {
    ws.map_values(|w: Seq<char>| apply_rules(rules.take(m), char_ids(tokens, w)))
}

/// Every rule merges the best pair of the words as encoded with the rules
/// before it.
pub open spec fn greedy_rules(tokens: Seq<Seq<char>>, rules: Seq<BpePair>, ws: Seq<Seq<char>>, counts: Seq<u32>) -> bool {
    forall|m: int| 0 <= m < rules.len() ==> is_best_pair(encoded_words(tokens, rules, ws, m), counts, ((#[trigger] rules[m]).left, rules[m].right))
}

/// `ws` lists each distinct non-empty pre-token of `all` once, and `counts`
/// how often each occurs.
pub open spec fn corpus_listing(all: Seq<Seq<char>>, ws: Seq<Seq<char>>, counts: Seq<u32>) -> bool {
    &&& ws.len() == counts.len()
    &&& unique_texts(ws)
    &&& forall|k: int| 0 <= k < ws.len() ==> (#[trigger] ws[k]).len() > 0 && all.contains(ws[k]) && counts[k] == count_in(all, ws[k])
    &&& forall|i: int| 0 <= i < all.len() && (#[trigger] all[i]).len() > 0 ==> ws.contains(all[i])
}

/// Some rule of `rules` results in the token `i`.
pub open spec fn rule_result(rules: Seq<BpePair>, i: int) -> bool {
    exists|k: int| 0 <= k < rules.len() && #[trigger] rules[k].id == i
}

/// Each word encoded with the rules learned so far.
pub open spec fn word_seqs(tokens: Seq<Seq<char>>, rules: Seq<BpePair>, ws: Seq<Seq<char>>) -> Seq<Seq<BpeTokenId>> {
    ws.map_values(|w: Seq<char>| encoded(tokens, rules, w))
}

/// Some sequence still has two symbols.
pub open spec fn has_pairs(seqs: Seq<Seq<BpeTokenId>>) -> bool {
    exists|k: int| 0 <= k < seqs.len() && (#[trigger] seqs[k]).len() >= 2
}

/// The pair to merge next: the best pair of the sequences.
pub open spec fn best_pair(seqs: Seq<Seq<BpeTokenId>>, counts: Seq<u32>) -> (BpeTokenId, BpeTokenId) {
    choose|p: (BpeTokenId, BpeTokenId)| is_best_pair(seqs, counts, p)
}

/// The tokens after registering the merge of `l` and `r`, and the merged
/// token's id: an existing token keeps its id, a new one gets the next id.
pub open spec fn merge_step(tokens: Seq<Seq<char>>, l: BpeTokenId, r: BpeTokenId) -> (Seq<Seq<char>>, BpeTokenId) {
    let t = tokens[l as int] + tokens[r as int];
    if tokens.contains(t) {
        (tokens, lookup_id(tokens, t))
    } else {
        (tokens.push(t), tokens.len() as BpeTokenId)
    }
}

/// The merge loop of training, from the tokens and rules learned so far:
/// while there are fewer than `limit` tokens and some word has two symbols,
/// merge the best pair into a token and record the rule.
pub open spec fn train_from(tokens: Seq<Seq<char>>, rules: Seq<BpePair>, ws: Seq<Seq<char>>, counts: Seq<u32>, limit: int) -> (Seq<Seq<char>>, Seq<BpePair>)
    decreases total_len(word_seqs(tokens, rules, ws)),
{
    let seqs = word_seqs(tokens, rules, ws);
    if tokens.len() >= limit || !has_pairs(seqs) {
        (tokens, rules)
    } else {
        let p = best_pair(seqs, counts);
        let (t2, id) = merge_step(tokens, p.0, p.1);
        let r2 = rules.push(BpePair { left: p.0, right: p.1, id });
        if total_len(word_seqs(t2, r2, ws)) < total_len(seqs) {
            train_from(t2, r2, ws, counts, limit)
        } else {
            (t2, r2)
        }
    }
}

/// How often each word occurs in the corpus.
pub open spec fn word_counts(all: Seq<Seq<char>>, ws: Seq<Seq<char>>) -> Seq<u32> {
    ws.map_values(|w: Seq<char>| count_in(all, w) as u32)
}

/// The size that training stops at: the target, but no more than ids can
/// number.
pub open spec fn size_limit(target: int) -> int {
    if target < u32::MAX {
        target
    } else {
        u32::MAX as int
    }
}

/// The tokens and rules that training on the corpus `all` with the target
/// size `target` learns: the special tokens, then one token per distinct
/// character in the order of first occurrence, then the merge loop over the
/// distinct non-empty pre-tokens weighted by their counts.
pub open spec fn trained(all: Seq<Seq<char>>, target: int) -> (Seq<Seq<char>>, Seq<BpePair>) {
    let ws = distinct_nonempty(all);
    train_from(special_texts() + char_tokens(first_chars(ws)), Seq::empty(), ws, word_counts(all, ws), size_limit(target))
}

/// There is one best pair.
proof fn lemma_best_unique(seqs: Seq<Seq<BpeTokenId>>, counts: Seq<u32>, p: (BpeTokenId, BpeTokenId), q: (BpeTokenId, BpeTokenId))
    requires
        is_best_pair(seqs, counts, p),
        is_best_pair(seqs, counts, q),
    ensures
        p == q,
{
    assert(occurs(seqs, q));
    assert(occurs(seqs, p));
}

/// The id that lookup gives for a registered text is its position.
proof fn lemma_lookup_at(t: Seq<Seq<char>>, i: int, x: Seq<char>)
    requires
        unique_texts(t),
        t.len() <= u32::MAX,
        0 <= i < t.len(),
        t[i] == x,
    ensures
        lookup_id(t, x) == i as BpeTokenId,
{
    assert(exists|j: int| 0 <= j < t.len() && t[j] == x);
    let l = lookup_id(t, x) as int;
    assert(0 <= l < t.len() && t[l] == x);
}

/// One round of the merge loop: training from the state before the round
/// learns what training from the state after it learns.
proof fn lemma_train_step(
    t0: Seq<Seq<char>>,
    t1: Seq<Seq<char>>,
    r0: Seq<BpePair>,
    ws: Seq<Seq<char>>,
    counts: Seq<u32>,
    sv: Seq<Seq<BpeTokenId>>,
    sn: Seq<Seq<BpeTokenId>>,
    p: (BpeTokenId, BpeTokenId),
    id: BpeTokenId,
    limit: int,
    pc: Seq<((BpeTokenId, BpeTokenId), u64)>,
)
    requires
        unique_texts(t0),
        unique_texts(t1),
        t0.len() <= u32::MAX,
        t1.len() <= u32::MAX,
        t0.len() < limit,
        sv.len() == ws.len(),
        sn.len() == ws.len(),
        forall|k: int| 0 <= k < ws.len() ==> (#[trigger] sv[k]) == encoded(t0, r0, ws[k]),
        forall|k: int| 0 <= k < ws.len() ==> (#[trigger] sn[k]) == encoded(t1, r0.push(BpePair { left: p.0, right: p.1, id }), ws[k]),
        total_len(sn) < total_len(sv),
        is_best_pair(sv, counts, p),
        (p.0 as int) < t0.len(),
        (p.1 as int) < t0.len(),
        (id as int) < t1.len(),
        t1[id as int] == t0[p.0 as int] + t0[p.1 as int],
        t0.contains(t1[id as int]) ==> t1 == t0,
        !t0.contains(t1[id as int]) ==> t1 == t0.push(t1[id as int]),
    ensures
        train_from(t0, r0, ws, counts, limit) == train_from(t1, r0.push(BpePair { left: p.0, right: p.1, id }), ws, counts, limit),
{
    let r1 = r0.push(BpePair { left: p.0, right: p.1, id });
    assert(word_seqs(t0, r0, ws) =~= sv);
    assert(word_seqs(t1, r1, ws) =~= sn);
    let (k, i) = choose|k: int, i: int| 0 <= k < sv.len() && #[trigger] has_pair_at(sv[k], i, p);
    assert(sv[k].len() >= 2);
    assert(has_pairs(sv));
    lemma_best_unique(sv, counts, best_pair(sv, counts), p);
    let text = t0[p.0 as int] + t0[p.1 as int];
    if t0.contains(text) {
        lemma_lookup_at(t0, id as int, text);
    } else {
        if (id as int) < t0.len() {
            assert(t0[id as int] == text);
        }
        assert(id as int == t0.len());
    }
    assert(merge_step(t0, p.0, p.1) == (t1, id));
}

/// Learning the best pair of the current words keeps every rule greedy.
proof fn lemma_greedy_step(
    t_init: Seq<Seq<char>>,
    t0: Seq<Seq<char>>,
    t1: Seq<Seq<char>>,
    r0: Seq<BpePair>,
    ws: Seq<Seq<char>>,
    counts: Seq<u32>,
    sv: Seq<Seq<BpeTokenId>>,
    pc: Seq<((BpeTokenId, BpeTokenId), u64)>,
    p: (BpeTokenId, BpeTokenId),
    id: BpeTokenId,
)
    requires
        unique_texts(t0),
        unique_texts(t1),
        t0.len() <= u32::MAX,
        t1.len() <= u32::MAX,
        extends(t0, t_init),
        extends(t1, t_init),
        forall|k: int, j: int| 0 <= k < ws.len() && 0 <= j < ws[k].len() ==> t_init.contains(seq![#[trigger] ws[k][j]]),
        sv.len() == ws.len(),
        forall|k: int| 0 <= k < ws.len() ==> (#[trigger] sv[k]) == encoded(t0, r0, ws[k]),
        greedy_rules(t0, r0, ws, counts),
        forall|e: int| 0 <= e < pc.len() ==> (#[trigger] pc[e]).1 == pair_count(sv, counts, pc[e].0),
        forall|e: int| 0 <= e < pc.len() ==> occurs(sv, (#[trigger] pc[e]).0),
        forall|k: int, i: int| 0 <= k < sv.len() && 0 <= i && i + 1 < sv[k].len() ==> count_keys(pc).contains((#[trigger] sv[k][i], sv[k][i + 1])),
        exists|b: int| is_best(pc, b) && pc[b].0 == p,
    ensures
        greedy_rules(t1, r0.push(BpePair { left: p.0, right: p.1, id }), ws, counts),
        is_best_pair(sv, counts, p),
{
    let rules = r0.push(BpePair { left: p.0, right: p.1, id });
    assert forall|k: int| 0 <= k < ws.len() implies #[trigger] char_ids(t1, ws[k]) == char_ids(t0, ws[k]) by {
        lemma_char_ids_stable(t_init, t0, ws[k]);
        lemma_char_ids_stable(t_init, t1, ws[k]);
    }
    assert forall|m: int| 0 <= m < rules.len() implies is_best_pair(encoded_words(t1, rules, ws, m), counts, ((#[trigger] rules[m]).left, rules[m].right)) by {
        if m < r0.len() {
            assert(rules.take(m) =~= r0.take(m));
            assert(rules[m] == r0[m]);
            assert(encoded_words(t1, rules, ws, m) =~= encoded_words(t0, r0, ws, m));
        } else {
            assert(rules.take(m) =~= r0);
            assert(encoded_words(t1, rules, ws, m) =~= sv);
            let b = choose|b: int| is_best(pc, b) && pc[b].0 == p;
            assert(occurs(sv, pc[b].0));
            assert forall|q: (BpeTokenId, BpeTokenId)| #[trigger] occurs(sv, q) implies pair_count(sv, counts, q) < pair_count(sv, counts, p) || (pair_count(sv, counts, q) == pair_count(sv, counts, p) && pair_le(p, q)) by {
                let (k, i) = choose|k: int, i: int| 0 <= k < sv.len() && #[trigger] has_pair_at(sv[k], i, q);
                assert(count_keys(pc).contains((sv[k][i], sv[k][i + 1])));
                let e = choose|e: int| 0 <= e < pc.len() && count_keys(pc)[e] == q;
                assert(pc[e].0 == q);
            }
        }
    }
}

/// A registered text keeps its id as the vocabulary grows.
proof fn lemma_lookup_stable(t1: Seq<Seq<char>>, t2: Seq<Seq<char>>, x: Seq<char>)
    requires
        unique_texts(t2),
        t2.len() <= u32::MAX,
        extends(t2, t1),
        t1.contains(x),
    ensures
        lookup_id(t2, x) == lookup_id(t1, x),
        (lookup_id(t1, x) as int) < t1.len(),
{
    assert(exists|i: int| 0 <= i < t1.len() && t1[i] == x);
    let w = choose|i: int| 0 <= i < t1.len() && t1[i] == x;
    assert(0 <= w < t2.len() && t2[w] == x);
    assert(exists|i: int| 0 <= i < t2.len() && t2[i] == x);
    let a = choose|i: int| 0 <= i < t1.len() && t1[i] == x;
    let b = choose|i: int| 0 <= i < t2.len() && t2[i] == x;
    assert(t2[a] == x);
    assert(a == b);
    let l1 = lookup_id(t1, x) as int;
    let l2 = lookup_id(t2, x) as int;
    assert(0 <= l1 < t1.len() && t1[l1] == x);
    assert(t2[l1] == x);
    assert(0 <= l2 < t2.len() && t2[l2] == x);
    assert(l1 == l2);
}

/// The character ids of a word whose characters are registered do not change
/// as the vocabulary grows.
proof fn lemma_char_ids_stable(t1: Seq<Seq<char>>, t2: Seq<Seq<char>>, w: Seq<char>)
    requires
        unique_texts(t2),
        t2.len() <= u32::MAX,
        extends(t2, t1),
        forall|j: int| 0 <= j < w.len() ==> t1.contains(seq![#[trigger] w[j]]),
    ensures
        char_ids(t2, w) == char_ids(t1, w),
{
    assert forall|j: int| 0 <= j < w.len() implies #[trigger] char_ids(t2, w)[j] == char_ids(t1, w)[j] by {
        lemma_lookup_stable(t1, t2, seq![w[j]]);
    }
    assert(char_ids(t2, w) =~= char_ids(t1, w));
}

/// Ids that spell a word in a vocabulary of unique texts are its character
/// ids.
proof fn lemma_spelled_char_ids(t: Seq<Seq<char>>, ids: Seq<BpeTokenId>, w: Seq<char>)
    requires
        unique_texts(t),
        t.len() <= u32::MAX,
        spelled(t, ids, w),
    ensures
        ids == char_ids(t, w),
        forall|j: int| 0 <= j < w.len() ==> t.contains(seq![#[trigger] w[j]]),
{
    assert forall|j: int| 0 <= j < w.len() implies #[trigger] char_ids(t, w)[j] == ids[j] && t.contains(seq![w[j]]) by {
        let id = ids[j];
        assert((id as int) < t.len());
        assert(t[id as int] == seq![w[j]]);
        assert(exists|i: int| 0 <= i < t.len() && t[i] == seq![w[j]]);
        let a = choose|i: int| 0 <= i < t.len() && t[i] == seq![w[j]];
        assert(a == id as int);
    }
    assert forall|j: int| 0 <= j < w.len() implies t.contains(seq![#[trigger] w[j]]) by {
        assert(t[ids[j] as int] == seq![w[j]]);
    }
    assert(char_ids(t, w) =~= ids);
}

/// Trains a vocabulary on a corpus of pre-tokens. The vocabulary starts with
/// the special tokens and one token per distinct character; then, while it is
/// smaller than `target_max_vocab_size`, the adjacent pair with the highest
/// weighted count (the smallest pair among equal counts) is merged into a new
/// token and recorded as a rule. Training stops early when no sequence has two
/// symbols left.
#[verifier::rlimit(60)]
pub fn train(pretokens: &[&str], target_max_vocab_size: usize) -> (vocab: Vocabulary)
    requires
        pretokens@.len() <= u32::MAX,
        forall|i: int| 0 <= i < pretokens@.len() ==> (#[trigger] pretokens@[i])@.len() <= u32::MAX,
    ensures
        vocab.wf(),
        vocab.rules_sound(),
        vocab.tokens().take(4) == special_texts(),
        forall|c: char| #[trigger] chars_of(texts(pretokens@)).contains(c) ==> vocab.tokens().contains(seq![c]),
        initial_size(texts(pretokens@)) <= vocab.tokens().len(),
        vocab.tokens().len() <= target_max_vocab_size || vocab.tokens().len() == initial_size(texts(pretokens@)),
        vocab.tokens().len() >= target_max_vocab_size || vocab.tokens().len() >= u32::MAX || forall|i: int| 0 <= i < pretokens@.len() ==> encoded(vocab.tokens(), vocab.rules(), (#[trigger] pretokens@[i])@).len() <= 1,
        exists|ws: Seq<Seq<char>>, counts: Seq<u32>| #[trigger] corpus_listing(texts(pretokens@), ws, counts) && #[trigger] greedy_rules(vocab.tokens(), vocab.rules(), ws, counts),
        (vocab.tokens(), vocab.rules()) == trained(texts(pretokens@), target_max_vocab_size as int),
        forall|i: int| initial_size(texts(pretokens@)) <= i < vocab.tokens().len() ==> #[trigger] rule_result(vocab.rules(), i),
        (forall|i: int| 0 <= i < pretokens@.len() ==> (#[trigger] pretokens@[i])@.len() == 0) ==> vocab.tokens() == special_texts() && vocab.rules().len() == 0,
{
    let ghost all = texts(pretokens@);
    let mut vocab = Vocabulary::new();
    let (words, counts) = count_pretoken_freqs(pretokens);
    let (mut sequences, freqs) = init_char_sequences(words.as_slice(), counts.as_slice(), &mut vocab);
    let ghost ws = word_texts(words@);
    let ghost t_init = vocab.tokens();
    proof {
        lemma_new_chars_specials(concat_words(ws));
        assert(t_init == special_texts() + char_tokens(first_chars(ws)));
        assert forall|c: char| first_chars(ws).contains(c) <==> chars_of(ws).contains(c) by {
            lemma_specials_not_chars(c);
        }
        lemma_distinct_chars_set(first_chars(ws), chars_of(ws));
        assert(t_init.take(4) =~= special_texts());
    }
    proof {
        assert(chars_of(ws) =~= chars_of(all)) by {
            assert forall|c: char| chars_of(ws).contains(c) implies chars_of(all).contains(c) by {
                let k = choose|k: int| 0 <= k < ws.len() && #[trigger] ws[k].contains(c);
                assert(ws[k] == words@[k]@);
                assert(all.contains(words@[k]@));
                let i = choose|i: int| 0 <= i < all.len() && all[i] == words@[k]@;
                assert(all[i].contains(c));
            }
            assert forall|c: char| chars_of(all).contains(c) implies chars_of(ws).contains(c) by {
                let i = choose|i: int| 0 <= i < all.len() && #[trigger] all[i].contains(c);
                assert(all[i].len() > 0);
                let k = choose|k: int| 0 <= k < words@.len() && (#[trigger] words@[k])@ == all[i];
                assert(ws[k] == all[i]);
            }
        }
        assert forall|k: int| 0 <= k < words@.len() implies (#[trigger] words@[k])@.len() > 0 by {}
        let sv = seq_views(sequences@);
        assert forall|k: int| 0 <= k < sv.len() implies (#[trigger] sv[k]).len() <= u32::MAX by {
            assert(sv[k] == sequences@[k]@);
            assert(spelled(t_init, sequences@[k]@, words@[k]@));
            assert(all.contains(words@[k]@));
            let i = choose|i: int| 0 <= i < all.len() && all[i] == words@[k]@;
            assert(all[i] == pretokens@[i]@);
        }
        assert(ids_below(sv, t_init.len() as int));
        assert forall|k: int| 0 <= k < ws.len() implies (#[trigger] sv[k]) == encoded(t_init, vocab.rules(), ws[k]) && forall|j: int| 0 <= j < ws[k].len() ==> t_init.contains(seq![#[trigger] ws[k][j]]) by {
            assert(sv[k] == sequences@[k]@);
            assert(ws[k] == words@[k]@);
            lemma_spelled_char_ids(t_init, sequences@[k]@, words@[k]@);
            assert(vocab.rules() =~= Seq::<BpePair>::empty());
        }
        assert(greedy_rules(t_init, vocab.rules(), ws, counts@));
        assert forall|k: int, j: int| 0 <= k < ws.len() && 0 <= j < ws[k].len() implies t_init.contains(seq![#[trigger] ws[k][j]]) by {
            assert(ws[k] == words@[k]@);
            lemma_spelled_char_ids(t_init, sequences@[k]@, words@[k]@);
        }
    }
    let limit: usize = if target_max_vocab_size < u32::MAX as usize {
        target_max_vocab_size
    } else {
        u32::MAX as usize
    };
    let ghost goal = trained(all, target_max_vocab_size as int);
    proof {
        assert(ws == distinct_nonempty(all));
        assert(counts@ =~= word_counts(all, ws)) by {
            assert forall|k: int| 0 <= k < ws.len() implies counts@[k] == (count_in(all, ws[k]) as u32) by {
                assert(ws[k] == words@[k]@);
            }
        }
        assert(vocab.rules() =~= Seq::<BpePair>::empty());
        assert(limit as int == size_limit(target_max_vocab_size as int));
    }
    while vocab.len() < limit
        invariant
            vocab.wf(),
            vocab.rules_sound(),
            extends(vocab.tokens(), t_init),
            t_init.take(4) == special_texts(),
            t_init.len() == initial_size(all),
            limit <= target_max_vocab_size,
            limit <= u32::MAX,
            vocab.tokens().len() <= limit || vocab.tokens().len() == t_init.len(),
            sequences@.len() == freqs@.len(),
            ids_below(seq_views(sequences@), vocab.tokens().len() as int),
            forall|k: int| 0 <= k < sequences@.len() ==> (#[trigger] seq_views(sequences@)[k]).len() <= u32::MAX,
            sum_counts(freqs@) <= u32::MAX,
            ws == word_texts(words@),
            sequences@.len() == ws.len(),
            forall|k: int| 0 <= k < ws.len() ==> (#[trigger] seq_views(sequences@)[k]) == encoded(vocab.tokens(), vocab.rules(), ws[k]),
            forall|k: int, j: int| 0 <= k < ws.len() && 0 <= j < ws[k].len() ==> t_init.contains(seq![#[trigger] ws[k][j]]),
            freqs@ == counts@,
            greedy_rules(vocab.tokens(), vocab.rules(), ws, counts@),
            train_from(vocab.tokens(), vocab.rules(), ws, counts@, limit as int) == goal,
            forall|i: int| t_init.len() <= i < vocab.tokens().len() ==> #[trigger] rule_result(vocab.rules(), i),
        ensures
            vocab.tokens().len() >= limit || forall|k: int| 0 <= k < sequences@.len() ==> (#[trigger] seq_views(sequences@)[k]).len() <= 1,
        decreases total_len(seq_views(sequences@)),
    {
        let ghost sv = seq_views(sequences@);
        let ghost t0 = vocab.tokens();
        let ghost r0 = vocab.rules();
        proof {
            lemma_weight_bound(sv, freqs@, u32::MAX as nat);
            assert(sum_counts(freqs@) * (u32::MAX as nat) <= u64::MAX) by (nonlinear_arith)
                requires sum_counts(freqs@) <= u32::MAX;
            assert(sv == seq_views(sequences@));
        }
        let pair_counts = count_pair_freqs(sequences.as_slice(), freqs.as_slice());
        if pair_counts.len() == 0 {
            proof {
                assert forall|k: int| 0 <= k < sequences@.len() implies (#[trigger] seq_views(sequences@)[k]).len() <= 1 by {
                    assert(sv[k] == sequences@[k]@);
                    if sequences@[k]@.len() >= 2 {
                        assert(count_keys(pair_counts@).contains((sequences@[k]@[0], sequences@[k]@[1])));
                    }
                }
            }
            break;
        }
        proof {
            assert forall|k: int, i: int| 0 <= k < sv.len() && 0 <= i && i + 1 < sv[k].len() implies count_keys(pair_counts@).contains((#[trigger] sv[k][i], sv[k][i + 1])) by {
                assert(sv[k] == sequences@[k]@);
            }
        }
        let (left, right) = find_most_frequent_pair(pair_counts.as_slice());
        let ghost kk: int;
        proof {
            let b = choose|b: int| is_best(pair_counts@, b) && pair_counts@[b].0 == (left, right);
            assert(occurs(sv, pair_counts@[b].0));
            let (k, i) = choose|k: int, i: int| 0 <= k < sv.len() && #[trigger] has_pair_at(sv[k], i, (left, right));
            assert(sv[k][i] == left && sv[k][i + 1] == right);
            lemma_occ_at(sv[k], i, (left, right));
            kk = k;
        }
        let merged_id = merge_tokens(&mut vocab, left, right);
        apply_merge(&mut sequences, left, right, merged_id);
        proof {
            let sn = seq_views(sequences@);
            let n = vocab.tokens().len() as int;
            assert forall|k: int| 0 <= k < sn.len() implies (#[trigger] sn[k]) == merged(sv[k], left, right, merged_id) by {
                assert(sn[k] == sequences@[k]@);
            }
            assert forall|k: int| 0 <= k < sn.len() implies (#[trigger] sn[k]).len() <= sv[k].len() by {
                lemma_merged_facts(sv[k], left, right, merged_id, n);
            }
            lemma_merged_facts(sv[kk], left, right, merged_id, n);
            lemma_total_len_shrinks(sv, sn, kk);
            assert forall|k: int, j: int| 0 <= k < sn.len() && 0 <= j < sn[k].len() implies (#[trigger] sn[k][j] as int) < n by {
                lemma_merged_facts(sv[k], left, right, merged_id, n);
                assert forall|j2: int| 0 <= j2 < sv[k].len() implies (#[trigger] sv[k][j2] as int) < n by {
                    assert((sv[k][j2] as int) < t0.len());
                }
            }
            assert forall|k: int| 0 <= k < vocab.rules().len() implies {
                let p = #[trigger] vocab.rules()[k];
                &&& p.left < vocab.tokens().len()
                &&& p.right < vocab.tokens().len()
                &&& p.id < vocab.tokens().len()
                &&& vocab.tokens()[p.id as int] == vocab.tokens()[p.left as int] + vocab.tokens()[p.right as int]
            } by {
                if k < r0.len() {
                    let p = r0[k];
                    assert(vocab.rules()[k] == p);
                    assert(t0[p.id as int] == t0[p.left as int] + t0[p.right as int]);
                    assert(vocab.tokens()[p.id as int] == t0[p.id as int]);
                    assert(vocab.tokens()[p.left as int] == t0[p.left as int]);
                    assert(vocab.tokens()[p.right as int] == t0[p.right as int]);
                } else {
                    assert(vocab.tokens()[left as int] == t0[left as int]);
                    assert(vocab.tokens()[right as int] == t0[right as int]);
                }
            }
            assert forall|i: int| 0 <= i < t_init.len() implies #[trigger] vocab.tokens()[i] == t_init[i] by {
                assert(t0[i] == t_init[i]);
            }
            assert forall|k: int| 0 <= k < ws.len() implies (#[trigger] sn[k]) == encoded(vocab.tokens(), vocab.rules(), ws[k]) by {
                lemma_char_ids_stable(t_init, t0, ws[k]);
                lemma_char_ids_stable(t_init, vocab.tokens(), ws[k]);
                assert(vocab.rules().drop_last() =~= r0);
                assert(vocab.rules().last() == BpePair { left, right, id: merged_id });
            }
            lemma_greedy_step(t_init, t0, vocab.tokens(), r0, ws, counts@, sv, pair_counts@, (left, right), merged_id);
            assert(vocab.rules() == r0.push(BpePair { left, right, id: merged_id }));
            lemma_train_step(t0, vocab.tokens(), r0, ws, counts@, sv, sn, (left, right), merged_id, limit as int, pair_counts@);
            assert forall|i: int| t_init.len() <= i < vocab.tokens().len() implies #[trigger] rule_result(vocab.rules(), i) by {
                if i < t0.len() {
                    assert(rule_result(r0, i));
                    let k = choose|k: int| 0 <= k < r0.len() && #[trigger] r0[k].id == i;
                    assert(vocab.rules()[k] == r0[k]);
                } else {
                    let text = vocab.tokens()[merged_id as int];
                    assert(!t0.contains(text));
                    if (merged_id as int) < t0.len() {
                        assert(t0[merged_id as int] == text);
                    }
                    assert(vocab.rules()[r0.len() as int].id == i);
                }
            }
        }
    }
    proof {
        assert(vocab.tokens().take(4) =~= t_init.take(4));
        assert forall|c: char| #[trigger] chars_of(all).contains(c) implies vocab.tokens().contains(seq![c]) by {
            assert(t_init.contains(seq![c]));
            let i = choose|i: int| 0 <= i < t_init.len() && t_init[i] == seq![c];
            assert(vocab.tokens()[i] == seq![c]);
        }
        assert(corpus_listing(all, ws, counts@)) by {
            assert forall|k: int| 0 <= k < ws.len() implies (#[trigger] ws[k]).len() > 0 && all.contains(ws[k]) && counts@[k] == count_in(all, ws[k]) by {
                assert(ws[k] == words@[k]@);
            }
            assert forall|i: int| 0 <= i < all.len() && (#[trigger] all[i]).len() > 0 implies ws.contains(all[i]) by {
                let k = choose|k: int| 0 <= k < words@.len() && (#[trigger] words@[k])@ == all[i];
                assert(ws[k] == all[i]);
            }
        }
        assert(word_seqs(vocab.tokens(), vocab.rules(), ws) =~= seq_views(sequences@));
        if vocab.tokens().len() < limit {
            assert(!has_pairs(word_seqs(vocab.tokens(), vocab.rules(), ws)));
        }
        assert(train_from(vocab.tokens(), vocab.rules(), ws, counts@, limit as int) == (vocab.tokens(), vocab.rules()));
        if forall|i: int| 0 <= i < pretokens@.len() ==> (#[trigger] pretokens@[i])@.len() == 0 {
            if ws.len() > 0 {
                assert(all.contains(ws[0]));
                let i = choose|i: int| 0 <= i < all.len() && all[i] == ws[0];
                assert(all[i] == pretokens@[i]@);
            }
            assert(first_chars(ws) =~= Seq::<char>::empty());
            assert(t_init =~= special_texts());
            assert(word_seqs(t_init, Seq::<BpePair>::empty(), ws) =~= Seq::<Seq<BpeTokenId>>::empty());
        }
        if vocab.tokens().len() < limit {
            assert forall|i: int| 0 <= i < pretokens@.len() implies encoded(vocab.tokens(), vocab.rules(), (#[trigger] pretokens@[i])@).len() <= 1 by {
                assert(all[i] == pretokens@[i]@);
                if all[i].len() > 0 {
                    let k = choose|k: int| 0 <= k < words@.len() && (#[trigger] words@[k])@ == all[i];
                    assert(ws[k] == all[i]);
                    assert(seq_views(sequences@)[k].len() <= 1);
                } else {
                    assert(char_ids(vocab.tokens(), all[i]) =~= Seq::<BpeTokenId>::empty());
                    lemma_merged_empty(vocab.rules());
                }
            }
        }
    }
    vocab
}

} // verus!
