//! Encoding: from a pre-token to token ids, by the learned merge rules.
use vstd::prelude::*;

use crate::text_util::char_to_string;
use crate::types::{BpePair, BpeTokenId, UNK_ID};
use crate::vocab::Vocabulary;

verus! {

/// One left-to-right pass of the merge (`l`, `r`) -> `m`, where `cur` is the
/// symbol under the scan and `rest` what follows it. After a merge the scan
/// stays on the new symbol, which may pair with the next one.
pub open spec fn merge_scan(cur: BpeTokenId, rest: Seq<BpeTokenId>, l: BpeTokenId, r: BpeTokenId, m: BpeTokenId) -> Seq<BpeTokenId>
    decreases rest.len(),
{
    if rest.len() == 0 {
        seq![cur]
    } else if cur == l && rest[0] == r {
        merge_scan(m, rest.drop_first(), l, r, m)
    } else {
        seq![cur] + merge_scan(rest[0], rest.drop_first(), l, r, m)
    }
}

/// The sequence `s` after one pass of the merge (`l`, `r`) -> `m`.
pub open spec fn merged(s: Seq<BpeTokenId>, l: BpeTokenId, r: BpeTokenId, m: BpeTokenId) -> Seq<BpeTokenId> {
    if s.len() == 0 {
        Seq::empty()
    } else {
        merge_scan(s[0], s.drop_first(), l, r, m)
    }
}

/// `ids` after applying each rule of `rules` once, in order.
pub open spec fn apply_rules(rules: Seq<BpePair>, ids: Seq<BpeTokenId>) -> Seq<BpeTokenId>
    decreases rules.len(),
{
    if rules.len() == 0 {
        ids
    } else {
        let p = rules.last();
        merged(apply_rules(rules.drop_last(), ids), p.left, p.right, p.id)
    }
}

/// The id that lookup gives for the text `t`: its registered id, or the
/// unknown id.
pub open spec fn lookup_id(tokens: Seq<Seq<char>>, t: Seq<char>) -> BpeTokenId {
    if exists|i: int| 0 <= i < tokens.len() && tokens[i] == t {
        (choose|i: int| 0 <= i < tokens.len() && tokens[i] == t) as BpeTokenId
    } else {
        UNK_ID
    }
}

/// One id per character of `s`.
pub open spec fn char_ids(tokens: Seq<Seq<char>>, s: Seq<char>) -> Seq<BpeTokenId> {
    s.map_values(|c: char| lookup_id(tokens, seq![c]))
}

/// What `encode` returns for the pre-token `s`.
pub open spec fn encoded(tokens: Seq<Seq<char>>, rules: Seq<BpePair>, s: Seq<char>) -> Seq<BpeTokenId> {
    apply_rules(rules, char_ids(tokens, s))
}

pub(crate) proof fn lemma_merged_empty(rules: Seq<BpePair>)
    ensures
        apply_rules(rules, Seq::empty()) == Seq::<BpeTokenId>::empty(),
    decreases rules.len(),
{
    if rules.len() > 0 {
        lemma_merged_empty(rules.drop_last());
    }
}

/// Rewrites `ids` by one left-to-right pass of the merge (`left`, `right`) ->
/// `merged_id`.
pub fn apply_merge(ids: &mut Vec<BpeTokenId>, left: BpeTokenId, right: BpeTokenId, merged_id: BpeTokenId)
    ensures
        final(ids)@ == merged(old(ids)@, left, right, merged_id),
{
    let n = ids.len();
    if n == 0 {
        return;
    }
    let ghost s = ids@;
    let mut out: Vec<BpeTokenId> = Vec::with_capacity(n);
    let mut cur = ids[0];
    let mut j: usize = 1;
    assert(s.subrange(1, n as int) =~= s.drop_first());
    while j < n
        invariant
            s == ids@,
            n == s.len(),
            1 <= j <= n,
            out@ + merge_scan(cur, s.subrange(j as int, n as int), left, right, merged_id) == merged(s, left, right, merged_id),
        decreases n - j,
    {
        let next = ids[j];
        let ghost rest = s.subrange(j as int, n as int);
        assert(rest.drop_first() =~= s.subrange(j as int + 1, n as int));
        if cur == left && next == right {
            cur = merged_id;
        } else {
            assert(out@.push(cur) + merge_scan(next, rest.drop_first(), left, right, merged_id) =~= out@ + (seq![cur] + merge_scan(next, rest.drop_first(), left, right, merged_id)));
            out.push(cur);
            cur = next;
        }
        j += 1;
    }
    out.push(cur);
    assert(out@ =~= merged(s, left, right, merged_id));
    *ids = out;
}

/// Encodes a pre-token: one id per character (the unknown id for a character
/// that is not registered), then every merge rule once, in priority order.
pub fn encode(vocab: &Vocabulary, pretoken: &str) -> (r: Vec<BpeTokenId>)
    requires
        vocab.wf(),
    ensures
        r@ == encoded(vocab.tokens(), vocab.rules(), pretoken@),
        pretoken@.len() == 0 ==> r@.len() == 0,
{
    if pretoken.is_empty() {
        proof {
            assert(char_ids(vocab.tokens(), pretoken@) =~= Seq::<BpeTokenId>::empty());
            lemma_merged_empty(vocab.rules());
        }
        return Vec::new();
    }
    let ghost tokens = vocab.tokens();
    let ghost s = pretoken@;
    let mut ids: Vec<BpeTokenId> = Vec::new();
    for ch in it: pretoken.chars()
        invariant
            vocab.wf(),
            tokens == vocab.tokens(),
            it.seq() == s,
            ids@ == char_ids(tokens, s.take(it.index() as int)),
    {
        let t = char_to_string(ch);
        let id = vocab.get_id(t.as_str());
        proof {
            if tokens.contains(seq![ch]) {
                assert(lookup_id(tokens, seq![ch]) == id);
            } else {
                assert(lookup_id(tokens, seq![ch]) == UNK_ID);
            }
            assert(s.take(it.index() as int + 1) =~= s.take(it.index() as int).push(ch));
        }
        ids.push(id);
        assert(ids@ =~= char_ids(tokens, s.take(it.index() as int + 1)));
    }
    assert(s.take(s.len() as int) =~= s);
    let pairs = vocab.pairs();
    let mut k: usize = 0;
    while k < pairs.len()
        invariant
            pairs@ == vocab.rules(),
            k <= pairs@.len(),
            ids@ == apply_rules(pairs@.take(k as int), char_ids(tokens, s)),
        decreases pairs@.len() - k,
    {
        let p = pairs[k];
        assert(pairs@.take(k as int + 1).drop_last() =~= pairs@.take(k as int));
        apply_merge(&mut ids, p.left, p.right, p.id);
        k += 1;
    }
    assert(pairs@.take(pairs@.len() as int) =~= pairs@);
    ids
}

} // verus!
