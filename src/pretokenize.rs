//! Pre-tokenization: splitting text into the units that BPE works on.
//!
//! Latin text splits at whitespace and at ASCII punctuation (which becomes a
//! token of its own, except the apostrophe, which stays inside its word);
//! each CJK ideograph is a token of its own.
use vstd::prelude::*;

use crate::normalize::{cjk, is_cjk, is_whitespace, white_space};
use crate::text_util::{char_to_string, push_char};

verus! {

/// A pre-token with its text.
#[derive(Debug, Clone, PartialEq, Eq)]
pub struct PreToken {
    pub text: String,
}

/// The ASCII punctuation characters: `!` to `/`, `:` to `@`, `[` to `` ` ``
/// and `{` to `~`.
pub open spec fn ascii_punctuation(c: char) -> bool {
    let v = c as u32;
    (0x21 <= v <= 0x2F) || (0x3A <= v <= 0x40) || (0x5B <= v <= 0x60) || (0x7B <= v <= 0x7E)
}

fn is_ascii_punctuation(c: char) -> (r: bool)
    ensures
        r == ascii_punctuation(c),
{
    let v = c as u32;
    (0x21 <= v && v <= 0x2F) || (0x3A <= v && v <= 0x40) || (0x5B <= v && v <= 0x60) || (0x7B <= v
        && v <= 0x7E)
}

/// `tokens`, with the pending word `cur` added where it is not empty.
pub open spec fn flushed(tokens: Seq<Seq<char>>, cur: Seq<char>) -> Seq<Seq<char>> {
    if cur.len() > 0 {
        tokens.push(cur)
    } else {
        tokens
    }
}

/// The finished tokens and the pending word after reading `s`.
pub open spec fn pretokenize_scan(s: Seq<char>) -> (Seq<Seq<char>>, Seq<char>)
    decreases s.len(),
{
    if s.len() == 0 {
        (Seq::empty(), Seq::empty())
    } else {
        let (tokens, cur) = pretokenize_scan(s.drop_last());
        let c = s.last();
        if cjk(c) {
            (flushed(tokens, cur).push(seq![c]), Seq::empty())
        } else if white_space(c) {
            (flushed(tokens, cur), Seq::empty())
        } else if ascii_punctuation(c) && c != '\'' {
            (flushed(tokens, cur).push(seq![c]), Seq::empty())
        } else {
            (tokens, cur.push(c))
        }
    }
}

/// The pre-tokens of `s`.
pub open spec fn pretokenized(s: Seq<char>) -> Seq<Seq<char>> {
    let (tokens, cur) = pretokenize_scan(s);
    flushed(tokens, cur)
}

/// The texts of a sequence of pre-tokens.
pub open spec fn token_texts(ts: Seq<PreToken>) -> Seq<Seq<char>> {
    ts.map_values(|t: PreToken| t.text@)
}

/// Moves a non-empty pending word into `tokens`.
pub fn flush_token(tokens: &mut Vec<PreToken>, current: &mut String)
    ensures
        token_texts(final(tokens)@) == flushed(token_texts(old(tokens)@), old(current)@),
        final(current)@ == Seq::<char>::empty(),
{
    if !current.as_str().is_empty() {
        let text = current.clone();
        tokens.push(PreToken { text });
        proof {
            assert(token_texts(tokens@) =~= token_texts(old(tokens)@).push(old(current)@));
        }
    }
    *current = String::new();
}

/// Splits text into pre-tokens.
pub fn pretokenize(text: &str) -> (r: Vec<PreToken>)
    ensures
        token_texts(r@) == pretokenized(text@),
{
    let ghost s = text@;
    let mut tokens: Vec<PreToken> = Vec::new();
    let mut current = String::new();
    assert(token_texts(tokens@) =~= Seq::<Seq<char>>::empty());
    for ch in it: text.chars()
        invariant
            it.seq() == s,
            (token_texts(tokens@), current@) == pretokenize_scan(s.take(it.index() as int)),
    {
        proof {
            assert(s.take(it.index() as int + 1).drop_last() =~= s.take(it.index() as int));
        }
        if is_cjk(ch) {
            flush_token(&mut tokens, &mut current);
            let ghost before = token_texts(tokens@);
            tokens.push(PreToken { text: char_to_string(ch) });
            assert(token_texts(tokens@) =~= before.push(seq![ch]));
        } else if is_whitespace(ch) {
            flush_token(&mut tokens, &mut current);
        } else if is_ascii_punctuation(ch) && ch != '\'' {
            flush_token(&mut tokens, &mut current);
            let ghost before = token_texts(tokens@);
            tokens.push(PreToken { text: char_to_string(ch) });
            assert(token_texts(tokens@) =~= before.push(seq![ch]));
        } else {
            push_char(&mut current, ch);
        }
    }
    proof {
        assert(s.take(s.len() as int) =~= s);
    }
    flush_token(&mut tokens, &mut current);
    tokens
}

} // verus!
