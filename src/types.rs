//! Token identifiers, the reserved special tokens, and merge rules.
use vstd::prelude::*;

verus! {

/// A token id: a dense index into the vocabulary.
pub type BpeTokenId = u32;

/// Text of the unknown token, also written for ids that are not registered.
pub const UNK_TOKEN: &'static str = "[UNK]";

/// Text of the padding token.
pub const PAD_TOKEN: &'static str = "[PAD]";

/// Text of the begin-of-sequence token.
pub const BOS_TOKEN: &'static str = "[BOS]";

/// Text of the end-of-sequence token.
pub const EOS_TOKEN: &'static str = "[EOS]";

pub const UNK_ID: BpeTokenId = 0;

pub const PAD_ID: BpeTokenId = 1;

pub const BOS_ID: BpeTokenId = 2;

pub const EOS_ID: BpeTokenId = 3;

/// The first id given to a token that is not one of the four special tokens.
pub const FIRST_REGULAR_ID: BpeTokenId = 4;

pub open spec fn unk_text() -> Seq<char> {
    seq!['[', 'U', 'N', 'K', ']']
}

pub open spec fn pad_text() -> Seq<char> {
    seq!['[', 'P', 'A', 'D', ']']
}

pub open spec fn bos_text() -> Seq<char> {
    seq!['[', 'B', 'O', 'S', ']']
}

pub open spec fn eos_text() -> Seq<char> {
    seq!['[', 'E', 'O', 'S', ']']
}

/// The texts of the special tokens, in id order.
pub open spec fn special_texts() -> Seq<Seq<char>> {
    seq![unk_text(), pad_text(), bos_text(), eos_text()]
}

/// A merge rule: the adjacent pair (`left`, `right`) merges into the token `id`.
#[derive(Clone, Copy, Debug, PartialEq, Eq, Hash)]
pub struct BpePair {
    /// Left token of the pair.
    pub left: BpeTokenId,
    /// Right token of the pair.
    pub right: BpeTokenId,
    /// The token that the pair merges into.
    pub id: BpeTokenId,
}

impl BpePair {
    pub fn new(left: BpeTokenId, right: BpeTokenId, id: BpeTokenId) -> (r: Self)
        ensures
            r == (BpePair { left, right, id }),
    {
        BpePair { left, right, id }
    }

    pub fn pair(&self) -> (r: (BpeTokenId, BpeTokenId))
        ensures
            r == (self.left, self.right),
    {
        (self.left, self.right)
    }

    pub fn id(&self) -> (r: BpeTokenId)
        ensures
            r == self.id,
    {
        self.id
    }
}

} // verus!
