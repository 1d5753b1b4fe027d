//! The binary vocabulary format, version 1. All integers are little-endian.
//!
//! A file holds the magic bytes `BPE\0`, the version, the number of tokens,
//! the number of merge rules, then each token as a `u32` byte length followed
//! by its UTF-8 bytes (in id order), then each rule as three `u32`s: left,
//! right and result (in priority order).
use vstd::bytes::{spec_u32_from_le_bytes, spec_u32_to_le_bytes, u32_from_le_bytes, u32_to_le_bytes};
use vstd::prelude::*;
use vstd::string::*;
use vstd::utf8::{decode_utf8, encode_utf8, valid_utf8};

use crate::types::{BpePair, BpeTokenId};
use crate::vocab::Vocabulary;

verus! {

/// The format version that this library writes and reads.
pub const FORMAT_VERSION: u32 = 1;

/// The longest token, in bytes, that a file may hold.
pub const MAX_TOKEN_LEN: u32 = 8 * 1024 * 1024;

/// Why a byte string is not a vocabulary file.
#[derive(Debug, Clone, Copy, PartialEq, Eq)]
pub enum FormatError {
    /// The first four bytes are not `BPE\0`.
    InvalidMagic,
    /// The version field holds another version than 1.
    UnsupportedVersion(u32),
    /// A token length field is over the limit.
    TokenTooLong(u32),
    /// A token's bytes are not valid UTF-8.
    InvalidUtf8,
    /// The data ends before a field that it announces.
    Truncated,
}

/// Relies on `String::from_utf8`: it succeeds exactly on valid UTF-8, and the
/// string then holds the decoded characters.
#[verifier::external_body]
fn string_from_utf8(bytes: Vec<u8>) -> (r: Option<String>)
    ensures
        r is Some <==> valid_utf8(bytes@),
        r matches Some(s) ==> s@ == decode_utf8(bytes@),
{
    String::from_utf8(bytes).ok()
}

pub open spec fn magic() -> Seq<u8> {
    seq![0x42u8, 0x50u8, 0x45u8, 0u8]
}

pub open spec fn le32(x: u32) -> Seq<u8> {
    spec_u32_to_le_bytes(x)
}

/// The `u32` at the start of `b`.
pub open spec fn read32(b: Seq<u8>) -> u32 {
    spec_u32_from_le_bytes(b.take(4))
}

pub open spec fn token_record(t: Seq<char>) -> Seq<u8> {
    le32(encode_utf8(t).len() as u32) + encode_utf8(t)
}

pub open spec fn tokens_bytes(ts: Seq<Seq<char>>) -> Seq<u8>
    decreases ts.len(),
{
    if ts.len() == 0 {
        Seq::empty()
    } else {
        token_record(ts[0]) + tokens_bytes(ts.drop_first())
    }
}

pub open spec fn pair_record(p: BpePair) -> Seq<u8> {
    le32(p.left) + le32(p.right) + le32(p.id)
}

pub open spec fn pairs_bytes(ps: Seq<BpePair>) -> Seq<u8>
    decreases ps.len(),
{
    if ps.len() == 0 {
        Seq::empty()
    } else {
        pair_record(ps[0]) + pairs_bytes(ps.drop_first())
    }
}

/// The file that holds the tokens `ts` and the rules `ps`.
pub open spec fn vocab_bytes(ts: Seq<Seq<char>>, ps: Seq<BpePair>) -> Seq<u8> {
    magic() + le32(FORMAT_VERSION) + le32(ts.len() as u32) + le32(ps.len() as u32) + tokens_bytes(ts) + pairs_bytes(ps)
}

/// Reads `n` token records from the start of `b`; gives the tokens and what
/// follows them.
pub open spec fn parse_tokens(b: Seq<u8>, n: nat) -> Result<(Seq<Seq<char>>, Seq<u8>), FormatError>
    decreases n,
{
    if n == 0 {
        Ok((Seq::empty(), b))
    } else if b.len() < 4 {
        Err(FormatError::Truncated)
    } else if read32(b) > MAX_TOKEN_LEN {
        Err(FormatError::TokenTooLong(read32(b)))
    } else if b.len() < 4 + read32(b) {
        Err(FormatError::Truncated)
    } else if !valid_utf8(b.subrange(4, 4 + read32(b))) {
        Err(FormatError::InvalidUtf8)
    } else {
        match parse_tokens(b.subrange(4 + read32(b), b.len() as int), (n - 1) as nat) {
            Ok((ts, rest)) => Ok((seq![decode_utf8(b.subrange(4, 4 + read32(b)))] + ts, rest)),
            Err(e) => Err(e),
        }
    }
}

/// Reads `n` rule records from the start of `b`.
pub open spec fn parse_pairs(b: Seq<u8>, n: nat) -> Result<Seq<BpePair>, FormatError>
    decreases n,
{
    if n == 0 {
        Ok(Seq::empty())
    } else if b.len() < 12 {
        Err(FormatError::Truncated)
    } else {
        match parse_pairs(b.subrange(12, b.len() as int), (n - 1) as nat) {
            Ok(ps) => Ok(seq![BpePair { left: read32(b), right: read32(b.subrange(4, 12)), id: read32(b.subrange(8, 12)) }] + ps),
            Err(e) => Err(e),
        }
    }
}

/// The tokens and rules that a file holds, or the first fault in it. Bytes
/// after the last rule are ignored.
pub open spec fn parse_vocab(b: Seq<u8>) -> Result<(Seq<Seq<char>>, Seq<BpePair>), FormatError> {
    if b.len() < 4 {
        Err(FormatError::Truncated)
    } else if b.take(4) != magic() {
        Err(FormatError::InvalidMagic)
    } else if b.len() < 8 {
        Err(FormatError::Truncated)
    } else if read32(b.subrange(4, 8)) != FORMAT_VERSION {
        Err(FormatError::UnsupportedVersion(read32(b.subrange(4, 8))))
    } else if b.len() < 16 {
        Err(FormatError::Truncated)
    } else {
        match parse_tokens(b.subrange(16, b.len() as int), read32(b.subrange(8, 12)) as nat) {
            Ok((ts, rest)) => match parse_pairs(rest, read32(b.subrange(12, 16)) as nat) {
                Ok(ps) => Ok((ts, ps)),
                Err(e) => Err(e),
            },
            Err(e) => Err(e),
        }
    }
}

/// The tokens left after registering `ts` in order, where a text that is
/// already there is not added again.
pub open spec fn replay(ts: Seq<Seq<char>>) -> Seq<Seq<char>>
    decreases ts.len(),
{
    if ts.len() == 0 {
        Seq::empty()
    } else if replay(ts.drop_last()).contains(ts.last()) {
        replay(ts.drop_last())
    } else {
        replay(ts.drop_last()).push(ts.last())
    }
}

/// Appends `b` to `out`.
fn extend_bytes(out: &mut Vec<u8>, b: &[u8])
    ensures
        final(out)@ == old(out)@ + b@,
{
    let mut i: usize = 0;
    while i < b.len()
        invariant
            i <= b@.len(),
            out@ == old(out)@ + b@.take(i as int),
        decreases b@.len() - i,
    {
        out.push(b[i]);
        i += 1;
        assert(out@ =~= old(out)@ + b@.take(i as int));
    }
    assert(b@.take(b@.len() as int) =~= b@);
}

proof fn lemma_tokens_bytes_push(ts: Seq<Seq<char>>, t: Seq<char>)
    ensures
        tokens_bytes(ts.push(t)) == tokens_bytes(ts) + token_record(t),
    decreases ts.len(),
{
    if ts.len() == 0 {
        assert(ts.push(t).drop_first() =~= Seq::<Seq<char>>::empty());
        assert(tokens_bytes(Seq::<Seq<char>>::empty()) == Seq::<u8>::empty());
        assert(ts.push(t)[0] == t);
        assert(tokens_bytes(ts.push(t)) =~= tokens_bytes(ts) + token_record(t));
    } else {
        assert(ts.push(t).drop_first() =~= ts.drop_first().push(t));
        lemma_tokens_bytes_push(ts.drop_first(), t);
        assert(ts.push(t)[0] == ts[0]);
        assert(tokens_bytes(ts.push(t)) == token_record(ts[0]) + (tokens_bytes(ts.drop_first()) + token_record(t)));
        assert(tokens_bytes(ts.push(t)) =~= tokens_bytes(ts) + token_record(t));
    }
}

proof fn lemma_pairs_bytes_push(ps: Seq<BpePair>, p: BpePair)
    ensures
        pairs_bytes(ps.push(p)) == pairs_bytes(ps) + pair_record(p),
    decreases ps.len(),
{
    if ps.len() == 0 {
        assert(ps.push(p).drop_first() =~= Seq::<BpePair>::empty());
        assert(pairs_bytes(Seq::<BpePair>::empty()) == Seq::<u8>::empty());
        assert(ps.push(p)[0] == p);
        assert(pairs_bytes(ps.push(p)) =~= pairs_bytes(ps) + pair_record(p));
    } else {
        assert(ps.push(p).drop_first() =~= ps.drop_first().push(p));
        lemma_pairs_bytes_push(ps.drop_first(), p);
        assert(ps.push(p)[0] == ps[0]);
        assert(pairs_bytes(ps.push(p)) == pair_record(ps[0]) + (pairs_bytes(ps.drop_first()) + pair_record(p)));
        assert(pairs_bytes(ps.push(p)) =~= pairs_bytes(ps) + pair_record(p));
    }
}

/// Writes `vocab` in the binary format.
pub fn to_bytes(vocab: &Vocabulary) -> (r: Vec<u8>)
    requires
        vocab.wf(),
        vocab.rules().len() <= u32::MAX,
        forall|i: int| 0 <= i < vocab.tokens().len() ==> encode_utf8(#[trigger] vocab.tokens()[i]).len() <= u32::MAX,
    ensures
        r@ == vocab_bytes(vocab.tokens(), vocab.rules()),
{
    let ghost ts = vocab.tokens();
    let ghost ps = vocab.rules();
    let mut out: Vec<u8> = Vec::new();
    out.push(0x42u8);
    out.push(0x50u8);
    out.push(0x45u8);
    out.push(0u8);
    extend_bytes(&mut out, u32_to_le_bytes(FORMAT_VERSION).as_slice());
    extend_bytes(&mut out, u32_to_le_bytes(vocab.len() as u32).as_slice());
    extend_bytes(&mut out, u32_to_le_bytes(vocab.pairs_count() as u32).as_slice());
    let ghost header = out@;
    assert(header =~= magic() + le32(FORMAT_VERSION) + le32(ts.len() as u32) + le32(ps.len() as u32));
    let n = vocab.len();
    let mut i: usize = 0;
    assert(tokens_bytes(ts.take(0)) =~= Seq::<u8>::empty());
    while i < n
        invariant
            ts == vocab.tokens(),
            n == ts.len(),
            n <= u32::MAX,
            i <= n,
            forall|j: int| 0 <= j < ts.len() ==> encode_utf8(#[trigger] ts[j]).len() <= u32::MAX,
            out@ == header + tokens_bytes(ts.take(i as int)),
        decreases n - i,
    {
        let token = vocab.get_token(i as BpeTokenId).unwrap();
        let bytes = token.as_bytes();
        assert(bytes@ == encode_utf8(ts[i as int]));
        extend_bytes(&mut out, u32_to_le_bytes(bytes.len() as u32).as_slice());
        extend_bytes(&mut out, bytes);
        proof {
            assert(ts.take(i as int + 1) =~= ts.take(i as int).push(ts[i as int]));
            lemma_tokens_bytes_push(ts.take(i as int), ts[i as int]);
        }
        i += 1;
        assert(out@ =~= header + tokens_bytes(ts.take(i as int)));
    }
    assert(ts.take(n as int) =~= ts);
    let ghost mid = out@;
    let pairs = vocab.pairs();
    let mut k: usize = 0;
    assert(pairs_bytes(ps.take(0)) =~= Seq::<u8>::empty());
    assert(mid + pairs_bytes(ps.take(0)) =~= mid);
    while k < pairs.len()
        invariant
            pairs@ == ps,
            k <= ps.len(),
            out@ == mid + pairs_bytes(ps.take(k as int)),
        decreases ps.len() - k,
    {
        let p = pairs[k];
        extend_bytes(&mut out, u32_to_le_bytes(p.left).as_slice());
        extend_bytes(&mut out, u32_to_le_bytes(p.right).as_slice());
        extend_bytes(&mut out, u32_to_le_bytes(p.id).as_slice());
        proof {
            assert(ps.take(k as int + 1) =~= ps.take(k as int).push(p));
            lemma_pairs_bytes_push(ps.take(k as int), p);
        }
        k += 1;
        assert(out@ =~= mid + pairs_bytes(ps.take(k as int)));
    }
    assert(ps.take(ps.len() as int) =~= ps);
    assert(out@ =~= vocab_bytes(ts, ps));
    out
}

/// The parse of the first tokens, `done`, followed by that of the rest.
pub open spec fn after_tokens(done: Seq<Seq<char>>, res: Result<(Seq<Seq<char>>, Seq<u8>), FormatError>) -> Result<(Seq<Seq<char>>, Seq<u8>), FormatError> {
    match res {
        Ok((ts, rest)) => Ok((done + ts, rest)),
        Err(e) => Err(e),
    }
}

/// The parse of the first rules, `done`, followed by that of the rest.
pub open spec fn after_pairs(done: Seq<BpePair>, res: Result<Seq<BpePair>, FormatError>) -> Result<Seq<BpePair>, FormatError> {
    match res {
        Ok(ps) => Ok(done + ps),
        Err(e) => Err(e),
    }
}

proof fn lemma_replay_len(ts: Seq<Seq<char>>)
    ensures
        replay(ts).len() <= ts.len(),
    decreases ts.len(),
{
    if ts.len() > 0 {
        lemma_replay_len(ts.drop_last());
    }
}

/// The `u32` at `pos`, if four bytes are there.
fn read_u32_at(data: &[u8], pos: usize) -> (r: Option<u32>)
    requires
        pos <= data@.len(),
    ensures
        data@.len() - pos >= 4 ==> r == Some(read32(data@.subrange(pos as int, data@.len() as int))),
        data@.len() - pos < 4 ==> r is None,
{
    if data.len() - pos < 4 {
        return None;
    }
    let v: Vec<u8> = vec![data[pos], data[pos + 1], data[pos + 2], data[pos + 3]];
    assert(v@ =~= data@.subrange(pos as int, data@.len() as int).take(4));
    Some(u32_from_le_bytes(v.as_slice()))
}

/// Reads a vocabulary in the binary format. The tokens are registered in the
/// order they are stored, so a file written by [`to_bytes`] gives back the same
/// ids; the rules are appended in the order they are stored.
#[verifier::rlimit(60)]
pub fn from_bytes(data: &[u8]) -> (r: Result<Vocabulary, FormatError>)
    ensures
        match r {
            Ok(v) => {
                &&& v.wf()
                &&& parse_vocab(data@) is Ok
                &&& v.tokens() == replay(parse_vocab(data@)->Ok_0.0)
                &&& v.rules() == parse_vocab(data@)->Ok_0.1
            },
            Err(e) => parse_vocab(data@) == Err::<(Seq<Seq<char>>, Seq<BpePair>), FormatError>(e),
        },
{
    let len = data.len();
    if len < 4 {
        return Err(FormatError::Truncated);
    }
    if data[0] != 0x42u8 || data[1] != 0x50u8 || data[2] != 0x45u8 || data[3] != 0u8 {
        proof {
            if data@.take(4) == magic() {
                assert(data@.take(4)[0] == data@[0] && data@.take(4)[1] == data@[1] && data@.take(4)[2] == data@[2] && data@.take(4)[3] == data@[3]);
            }
        }
        return Err(FormatError::InvalidMagic);
    }
    assert(data@.take(4) =~= magic());
    let version = match read_u32_at(data, 4) {
        Some(v) => v,
        None => return Err(FormatError::Truncated),
    };
    assert(data@.subrange(4, len as int).take(4) =~= data@.subrange(4, 8).take(4));
    if version != FORMAT_VERSION {
        return Err(FormatError::UnsupportedVersion(version));
    }
    let vocab_size = match read_u32_at(data, 8) {
        Some(v) => v,
        None => return Err(FormatError::Truncated),
    };
    let pairs_count = match read_u32_at(data, 12) {
        Some(v) => v,
        None => return Err(FormatError::Truncated),
    };
    assert(data@.subrange(8, len as int).take(4) =~= data@.subrange(8, 12).take(4));
    assert(data@.subrange(12, len as int).take(4) =~= data@.subrange(12, 16).take(4));
    let ghost body = data@.subrange(16, len as int);
    let mut vocab = Vocabulary::empty();
    let mut pos: usize = 16;
    let ghost mut done: Seq<Seq<char>> = Seq::empty();
    assert(after_tokens(done, parse_tokens(body, vocab_size as nat)) == parse_tokens(body, vocab_size as nat)) by {
        match parse_tokens(body, vocab_size as nat) {
            Ok((ts, rest)) => {
                assert(done + ts =~= ts);
            },
            Err(e) => {},
        }
    }
    let mut i: u32 = 0;
    while i < vocab_size
        invariant
            data@.len() >= 16,
            data@.take(4) == magic(),
            read32(data@.subrange(4, 8)) == FORMAT_VERSION,
            read32(data@.subrange(8, 12)) == vocab_size,
            read32(data@.subrange(12, 16)) == pairs_count,
            len == data@.len(),
            16 <= pos <= len,
            body == data@.subrange(16, len as int),
            i <= vocab_size,
            done.len() == i,
            parse_tokens(body, vocab_size as nat) == after_tokens(done, parse_tokens(data@.subrange(pos as int, len as int), (vocab_size - i) as nat)),
            vocab.wf(),
            vocab.tokens() == replay(done),
            vocab.rules() == Seq::<BpePair>::empty(),
        decreases vocab_size - i,
    {
        let ghost b = data@.subrange(pos as int, len as int);
        let tlen = match read_u32_at(data, pos) {
            Some(v) => v,
            None => {
                assert(parse_tokens(b, (vocab_size - i) as nat) == Err::<(Seq<Seq<char>>, Seq<u8>), FormatError>(FormatError::Truncated));
                return Err(FormatError::Truncated);
            },
        };
        if tlen > MAX_TOKEN_LEN {
            assert(parse_tokens(b, (vocab_size - i) as nat) == Err::<(Seq<Seq<char>>, Seq<u8>), FormatError>(FormatError::TokenTooLong(tlen)));
            return Err(FormatError::TokenTooLong(tlen));
        }
        if len - pos - 4 < tlen as usize {
            assert(parse_tokens(b, (vocab_size - i) as nat) == Err::<(Seq<Seq<char>>, Seq<u8>), FormatError>(FormatError::Truncated));
            return Err(FormatError::Truncated);
        }
        let start = pos + 4;
        let end = start + tlen as usize;
        let mut buf: Vec<u8> = Vec::with_capacity(tlen as usize);
        let mut j: usize = start;
        while j < end
            invariant
                start <= j <= end,
                end <= len,
                len == data@.len(),
                buf@ == data@.subrange(start as int, j as int),
            decreases end - j,
        {
            buf.push(data[j]);
            j += 1;
            assert(buf@ =~= data@.subrange(start as int, j as int));
        }
        assert(buf@ =~= b.subrange(4, 4 + tlen as int));
        assert(b.subrange(4 + tlen as int, b.len() as int) =~= data@.subrange(end as int, len as int));
        match string_from_utf8(buf) {
            None => {
                assert(parse_tokens(b, (vocab_size - i) as nat) == Err::<(Seq<Seq<char>>, Seq<u8>), FormatError>(FormatError::InvalidUtf8));
                return Err(FormatError::InvalidUtf8);
            },
            Some(text) => {
                proof {
                    lemma_replay_len(done);
                    let d = text@;
                    let nd = done.push(d);
                    assert(nd.drop_last() =~= done);
                    match parse_tokens(data@.subrange(end as int, len as int), (vocab_size - i - 1) as nat) {
                        Ok((ts, rest)) => {
                            assert(done + (seq![d] + ts) =~= nd + ts);
                        },
                        Err(e) => {},
                    }
                    done = nd;
                }
                vocab.add_token(text);
            },
        }
        pos = end;
        i += 1;
    }
    let ghost toks = done;
    let ghost rest = data@.subrange(pos as int, len as int);
    assert(done + Seq::<Seq<char>>::empty() =~= done);
    let ghost mut donep: Seq<BpePair> = Seq::empty();
    assert(after_pairs(donep, parse_pairs(rest, pairs_count as nat)) == parse_pairs(rest, pairs_count as nat)) by {
        match parse_pairs(rest, pairs_count as nat) {
            Ok(ps) => {
                assert(donep + ps =~= ps);
            },
            Err(e) => {},
        }
    }
    let mut k: u32 = 0;
    while k < pairs_count
        invariant
            data@.len() >= 16,
            data@.take(4) == magic(),
            read32(data@.subrange(4, 8)) == FORMAT_VERSION,
            read32(data@.subrange(8, 12)) == vocab_size,
            read32(data@.subrange(12, 16)) == pairs_count,
            body == data@.subrange(16, len as int),
            len == data@.len(),
            pos <= len,
            k <= pairs_count,
            parse_tokens(body, vocab_size as nat) == Ok::<(Seq<Seq<char>>, Seq<u8>), FormatError>((toks, rest)),
            parse_pairs(rest, pairs_count as nat) == after_pairs(donep, parse_pairs(data@.subrange(pos as int, len as int), (pairs_count - k) as nat)),
            vocab.wf(),
            vocab.tokens() == replay(toks),
            vocab.rules() == donep,
        decreases pairs_count - k,
    {
        let ghost b = data@.subrange(pos as int, len as int);
        if len - pos < 12 {
            assert(parse_pairs(b, (pairs_count - k) as nat) == Err::<Seq<BpePair>, FormatError>(FormatError::Truncated));
            return Err(FormatError::Truncated);
        }
        let left = read_u32_at(data, pos).unwrap();
        let right = read_u32_at(data, pos + 4).unwrap();
        let id = read_u32_at(data, pos + 8).unwrap();
        proof {
            assert(data@.subrange(pos + 4, len as int).take(4) =~= b.subrange(4, 12).take(4));
            assert(data@.subrange(pos + 8, len as int).take(4) =~= b.subrange(8, 12).take(4));
            assert(b.subrange(12, b.len() as int) =~= data@.subrange(pos + 12, len as int));
            let p = BpePair { left, right, id };
            match parse_pairs(data@.subrange(pos + 12, len as int), (pairs_count - k - 1) as nat) {
                Ok(ps) => {
                    assert(donep + (seq![p] + ps) =~= donep.push(p) + ps);
                },
                Err(e) => {},
            }
            donep = donep.push(p);
        }
        vocab.add_pair(left, right, id);
        pos = pos + 12;
        k += 1;
    }
    assert(donep + Seq::<BpePair>::empty() =~= donep);
    Ok(vocab)
}

} // verus!
