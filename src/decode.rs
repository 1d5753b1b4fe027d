//! Decoding: from token ids back to text.
use vstd::prelude::*;
use vstd::string::*;

use crate::types::{unk_text, BpeTokenId};
use crate::vocab::Vocabulary;

verus! {

/// The text written for one id: its token's text, or the unknown placeholder
/// where the id is not registered.
pub open spec fn id_text(tokens: Seq<Seq<char>>, id: BpeTokenId) -> Seq<char> {
    if (id as int) < tokens.len() {
        tokens[id as int]
    } else {
        unk_text()
    }
}

/// The texts of `ids`, one after the other.
pub open spec fn decoded(tokens: Seq<Seq<char>>, ids: Seq<BpeTokenId>) -> Seq<char>
    decreases ids.len(),
{
    if ids.len() == 0 {
        Seq::empty()
    } else {
        id_text(tokens, ids[0]) + decoded(tokens, ids.drop_first())
    }
}

/// Decoding a concatenation is concatenating the decodings.
pub proof fn lemma_decoded_concat(tokens: Seq<Seq<char>>, a: Seq<BpeTokenId>, b: Seq<BpeTokenId>)
    ensures
        decoded(tokens, a + b) == decoded(tokens, a) + decoded(tokens, b),
    decreases a.len(),
{
    if a.len() == 0 {
        assert(a + b =~= b);
        assert(decoded(tokens, a) + decoded(tokens, b) =~= decoded(tokens, b));
    } else {
        assert((a + b).drop_first() =~= a.drop_first() + b);
        lemma_decoded_concat(tokens, a.drop_first(), b);
        assert(decoded(tokens, a + b) =~= decoded(tokens, a) + decoded(tokens, b));
    }
}

/// Reconstructs text from token ids: each id gives its token's text, and an
/// id that is not registered gives the placeholder `[UNK]`.
pub fn decode(vocab: &Vocabulary, ids: &[BpeTokenId]) -> (r: String)
    ensures
        r@ == decoded(vocab.tokens(), ids@),
        ids@.len() == 0 ==> r@.len() == 0,
        ids@.len() == 1 && ids@[0] >= vocab.tokens().len() ==> r@ == unk_text(),
{
    let mut result = String::new();
    let mut i: usize = 0;
    while i < ids.len()
        invariant
            i <= ids@.len(),
            result@ == decoded(vocab.tokens(), ids@.take(i as int)),
        decreases ids@.len() - i,
    {
        let id = ids[i];
        proof {
            assert(ids@.take(i as int + 1) =~= ids@.take(i as int) + seq![id]);
            lemma_decoded_concat(vocab.tokens(), ids@.take(i as int), seq![id]);
            assert(decoded(vocab.tokens(), seq![id]) =~= id_text(vocab.tokens(), id)) by {
                assert(seq![id].drop_first() =~= Seq::<BpeTokenId>::empty());
                assert(decoded(vocab.tokens(), Seq::<BpeTokenId>::empty()) == Seq::<char>::empty());
                assert(id_text(vocab.tokens(), id) + Seq::<char>::empty() =~= id_text(vocab.tokens(), id));
            }
        }
        match vocab.get_token(id) {
            Some(token) => result.append(token),
            None => {
                proof {
                    reveal_strlit("[UNK]");
                }
                assert("[UNK]"@ =~= unk_text());
                result.append("[UNK]");
            },
        }
        i += 1;
    }
    assert(ids@.take(ids@.len() as int) =~= ids@);
    proof {
        if ids@.len() == 1 {
            assert(ids@.drop_first() =~= Seq::<BpeTokenId>::empty());
            assert(decoded(vocab.tokens(), Seq::<BpeTokenId>::empty()) == Seq::<char>::empty());
            assert(id_text(vocab.tokens(), ids@[0]) + Seq::<char>::empty() =~= id_text(vocab.tokens(), ids@[0]));
        }
    }
    result
}

} // verus!
