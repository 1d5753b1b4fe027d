//! The vocabulary: a bidirectional token/id store with the ordered merge rules.
use vstd::prelude::*;
use vstd::string::*;

use crate::types::{
    bos_text, eos_text, pad_text, special_texts, unk_text, BpePair, BpeTokenId, UNK_ID,
};

verus! {

/// Tokens indexed by id, each text registered once, and the merge rules in the
/// order in which they were learned.
#[derive(Debug, Clone)]
pub struct Vocabulary {
    id_to_token: Vec<String>,
    pairs: Vec<BpePair>,
}

/// No two ids carry the same text.
pub open spec fn unique_texts(ts: Seq<Seq<char>>) -> bool {
    forall|i: int, j: int| 0 <= i < ts.len() && 0 <= j < ts.len() && i != j ==> ts[i] != ts[j]
}

impl Vocabulary {
    /// The token texts, indexed by id.
    pub closed spec fn tokens(&self) -> Seq<Seq<char>> {
        self.id_to_token@.map_values(|t: String| t@)
    }

    /// The merge rules, in priority order.
    pub closed spec fn rules(&self) -> Seq<BpePair> {
        self.pairs@
    }

    /// Texts are unique and every id fits in a token id.
    pub open spec fn wf(&self) -> bool {
        &&& unique_texts(self.tokens())
        &&& self.tokens().len() <= u32::MAX
    }

    /// Every rule names registered ids, and the text of its result is the text
    /// of its left token followed by that of its right token.
    pub open spec fn rules_sound(&self) -> bool {
        forall|k: int|
            0 <= k < self.rules().len() ==> {
                let p = #[trigger] self.rules()[k];
                &&& p.left < self.tokens().len()
                &&& p.right < self.tokens().len()
                &&& p.id < self.tokens().len()
                &&& self.tokens()[p.id as int] == self.tokens()[p.left as int] + self.tokens()[
                    p.right as int]
            }
    }

    /// A vocabulary with no token and no rule.
    pub(crate) fn empty() -> (v: Vocabulary)
        ensures
            v.wf(),
            v.tokens() == Seq::<Seq<char>>::empty(),
            v.rules() == Seq::<BpePair>::empty(),
    {
        let v = Vocabulary { id_to_token: Vec::new(), pairs: Vec::new() };
        assert(v.tokens() =~= Seq::<Seq<char>>::empty());
        v
    }

    /// A vocabulary holding exactly the four special tokens, with ids 0 to 3.
    pub fn new() -> (v: Vocabulary)
        ensures
            v.wf(),
            v.tokens() == special_texts(),
            v.rules() == Seq::<BpePair>::empty(),
    {
        let mut v = Vocabulary::empty();
        proof {
            reveal_strlit("[UNK]");
            reveal_strlit("[PAD]");
            reveal_strlit("[BOS]");
            reveal_strlit("[EOS]");
        }
        let unk = String::from_str("[UNK]");
        let pad = String::from_str("[PAD]");
        let bos = String::from_str("[BOS]");
        let eos = String::from_str("[EOS]");
        assert(unk@ =~= unk_text());
        assert(pad@ =~= pad_text());
        assert(bos@ =~= bos_text());
        assert(eos@ =~= eos_text());
        assert(unk_text()[1] != pad_text()[1]);
        assert(bos_text()[1] != unk_text()[1] && bos_text()[1] != pad_text()[1]);
        assert(eos_text()[1] != unk_text()[1] && eos_text()[1] != pad_text()[1] && eos_text()[1]
            != bos_text()[1]);
        v.add_token(unk);
        v.add_token(pad);
        v.add_token(bos);
        v.add_token(eos);
        assert(v.tokens() =~= special_texts());
        v
    }

    /// Number of tokens.
    pub fn len(&self) -> (r: usize)
        ensures
            r == self.tokens().len(),
    {
        self.id_to_token.len()
    }

    /// Whether the vocabulary holds no token.
    pub fn is_empty(&self) -> (r: bool)
        ensures
            r == (self.tokens().len() == 0),
    {
        self.id_to_token.len() == 0
    }

    /// The id of the token whose text is `token`, if it is registered.
    fn find(&self, token: &str) -> (r: Option<BpeTokenId>)
        requires
            self.wf(),
        ensures
            match r {
                Some(id) => id < self.tokens().len() && self.tokens()[id as int] == token@,
                None => !self.tokens().contains(token@),
            },
    {
        let key = token.to_owned();
        let n = self.id_to_token.len();
        let mut i: usize = 0;
        while i < n
            invariant
                n == self.tokens().len(),
                n <= u32::MAX,
                key@ == token@,
                i <= n,
                forall|j: int| 0 <= j < i ==> self.tokens()[j] != token@,
            decreases n - i,
        {
            if self.id_to_token[i] == key {
                return Some(i as BpeTokenId);
            }
            i += 1;
        }
        None
    }

    /// Registers `token` and returns its id. A token that is already there
    /// keeps its id and leaves the vocabulary as it was; a new one gets the
    /// next id.
    pub fn add_token(&mut self, token: String) -> (id: BpeTokenId)
        requires
            old(self).wf(),
            old(self).tokens().len() < u32::MAX,
        ensures
            final(self).wf(),
            final(self).rules() == old(self).rules(),
            id < final(self).tokens().len(),
            final(self).tokens()[id as int] == token@,
            old(self).tokens().contains(token@) ==> final(self).tokens() == old(self).tokens(),
            !old(self).tokens().contains(token@) ==> final(self).tokens() == old(
                self,
            ).tokens().push(token@) && id == old(self).tokens().len(),
    {
        match self.find(token.as_str()) {
            Some(id) => {
                proof {
                    assert(old(self).tokens().contains(token@));
                }
                id
            },
            None => {
                let id = self.id_to_token.len() as BpeTokenId;
                self.id_to_token.push(token);
                proof {
                    assert(self.tokens() =~= old(self).tokens().push(token@));
                }
                id
            },
        }
    }

    /// The id of `token`, or the unknown token's id where it is not registered.
    pub fn get_id(&self, token: &str) -> (r: BpeTokenId)
        requires
            self.wf(),
        ensures
            self.tokens().contains(token@) ==> r < self.tokens().len() && self.tokens()[r as int]
                == token@,
            !self.tokens().contains(token@) ==> r == UNK_ID,
    {
        match self.find(token) {
            Some(id) => id,
            None => UNK_ID,
        }
    }

    /// The id of `token`, or `None` where it is not registered.
    pub fn get_id_opt(&self, token: &str) -> (r: Option<BpeTokenId>)
        requires
            self.wf(),
        ensures
            r is Some <==> self.tokens().contains(token@),
            r matches Some(id) ==> id < self.tokens().len() && self.tokens()[id as int] == token@,
    {
        self.find(token)
    }

    /// The text of the token `id`, or `None` where `id` is out of range.
    pub fn get_token(&self, id: BpeTokenId) -> (r: Option<&str>)
        ensures
            r is Some <==> id < self.tokens().len(),
            r matches Some(s) ==> s@ == self.tokens()[id as int],
    {
        if (id as usize) < self.id_to_token.len() {
            Some(self.id_to_token[id as usize].as_str())
        } else {
            None
        }
    }

    /// Appends the merge rule (`left`, `right`) -> `id`, last in priority.
    pub fn add_pair(&mut self, left: BpeTokenId, right: BpeTokenId, id: BpeTokenId)
        ensures
            final(self).tokens() == old(self).tokens(),
            final(self).rules() == old(self).rules().push(BpePair { left, right, id }),
    {
        self.pairs.push(BpePair::new(left, right, id));
    }

    /// The merge rules in priority order.
    pub fn pairs(&self) -> (r: &[BpePair])
        ensures
            r@ == self.rules(),
    {
        self.pairs.as_slice()
    }

    /// Number of merge rules.
    pub fn pairs_count(&self) -> (r: usize)
        ensures
            r == self.rules().len(),
    {
        self.pairs.len()
    }

    /// Whether a token with text `token` is registered.
    pub fn contains(&self, token: &str) -> (r: bool)
        requires
            self.wf(),
        ensures
            r == self.tokens().contains(token@),
    {
        self.find(token).is_some()
    }

    /// Every (text, id) entry, in id order.
    pub fn iter(&self) -> (r: Vec<(&str, BpeTokenId)>)
        requires
            self.wf(),
        ensures
            r.len() == self.tokens().len(),
            forall|i: int| 0 <= i < r.len() ==> r[i].0@ == self.tokens()[i] && r[i].1 == i,
    {
        let mut r: Vec<(&str, BpeTokenId)> = Vec::new();
        let n = self.id_to_token.len();
        let mut i: usize = 0;
        while i < n
            invariant
                n == self.tokens().len(),
                n <= u32::MAX,
                i <= n,
                r.len() == i,
                forall|j: int| 0 <= j < i ==> r[j].0@ == self.tokens()[j] && r[j].1 == j,
            decreases n - i,
        {
            r.push((self.id_to_token[i].as_str(), i as BpeTokenId));
            i += 1;
        }
        r
    }
}

impl Default for Vocabulary {
    fn default() -> (v: Vocabulary)
        ensures
            v.wf(),
            v.tokens() == special_texts(),
            v.rules() == Seq::<BpePair>::empty(),
    {
        Vocabulary::new()
    }
}

} // verus!
