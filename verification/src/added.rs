//! The added-token registry: special tokens reserved in the vocabulary
//! outside normal merge learning.  Registration goes through
//! `Vocabulary::add` and is therefore idempotent: registering the same
//! content twice returns the existing id and leaves the vocabulary
//! unchanged.

use vstd::prelude::*;

use crate::vocab::{Vocabulary, has_token, spec_add};

verus! {

/// A token registered outside merge learning, with its matching options.
/// The matching options (`single_word`, `lstrip`, `rstrip`, `normalized`)
/// steer the external pre-tokenization stage; this engine records them and
/// reserves the content in the vocabulary.
pub struct AddedToken {
    pub content: String,
    pub single_word: bool,
    pub lstrip: bool,
    pub rstrip: bool,
    pub normalized: bool,
    pub special: bool,
}

impl AddedToken {
    /// A special token with the default matching options.
    pub fn special(content: String) -> (t: AddedToken)
        ensures
            t.content@ == content@,
            t.special,
            !t.single_word && !t.lstrip && !t.rstrip && !t.normalized,
    {
        AddedToken {
            content,
            single_word: false,
            lstrip: false,
            rstrip: false,
            normalized: false,
            special: true,
        }
    }

    /// A copy of this token (`String` content cloned exactly).
    pub fn duplicate(&self) -> (t: AddedToken)
        ensures
            t.content@ == self.content@,
            t.single_word == self.single_word,
            t.lstrip == self.lstrip,
            t.rstrip == self.rstrip,
            t.normalized == self.normalized,
            t.special == self.special,
    {
        AddedToken {
            content: self.content.clone(),
            single_word: self.single_word,
            lstrip: self.lstrip,
            rstrip: self.rstrip,
            normalized: self.normalized,
            special: self.special,
        }
    }
}

/// The registry of added tokens, in registration order.
pub struct AddedTokenRegistry {
    tokens: Vec<AddedToken>,
}

impl View for AddedTokenRegistry {
    type V = Seq<Seq<char>>;

    /// The registered contents, in order.
    closed spec fn view(&self) -> Seq<Seq<char>> {
        self.tokens@.map(|i: int, t: AddedToken| t.content@)
    }
}

impl AddedTokenRegistry {
    /// An empty registry.
    pub fn new() -> (r: AddedTokenRegistry)
        ensures
            r@ =~= Seq::<Seq<char>>::empty(),
    {
        AddedTokenRegistry { tokens: Vec::new() }
    }

    /// Number of registered tokens (duplicates included).
    pub fn len(&self) -> (n: usize)
        ensures
            n == self@.len(),
    {
        self.tokens.len()
    }

    /// Registers `token`, reserving its content in `vocab`, and returns its
    /// id.  Reserving is idempotent on the vocabulary: content already
    /// present keeps its id and the vocabulary size does not change.
    pub fn register(&mut self, token: AddedToken, vocab: &mut Vocabulary) -> (id: usize)
        requires
            old(vocab).wf(),
        ensures
            final(vocab).wf(),
            final(vocab)@ == spec_add(old(vocab)@, token.content@),
            id < final(vocab)@.len() && final(vocab)@[id as int] == token.content@,
            final(self)@ == old(self)@.push(token.content@),
            has_token(old(vocab)@, token.content@) ==> final(vocab)@ == old(vocab)@,
    {
        let id = vocab.add(token.content.as_str());
        self.tokens.push(token);
        id
    }

    /// The id under which `word`, taken whole, is reserved: a word that is
    /// exactly a registered special token bypasses merge splitting.
    pub fn full_match(&self, word: &str, vocab: &Vocabulary) -> (r: Option<usize>)
        requires
            vocab.wf(),
        ensures
            match r {
                Some(id) => has_token(self@, word@) && id < vocab@.len() && vocab@[id as int]
                    == word@,
                None => !has_token(self@, word@) || !has_token(vocab@, word@),
            },
    {
        let w = String::from_str(word);
        let n = self.tokens.len();
        for i in 0..n
            invariant
                n == self@.len(),
                w@ == word@,
                vocab.wf(),
                self@ == self.tokens@.map(|k: int, t: AddedToken| t.content@),
                forall|k: int| 0 <= k < i ==> self@[k] != word@,
        {
            if self.tokens[i].content.eq(&w) {
                assert(self@[i as int] == word@);
                return vocab.get_id(word);
            }
        }
        None
    }
}

/// Idempotence of token reservation: adding a token to a vocabulary that
/// already went through the same addition changes nothing — the second
/// registration is a no-op and the vocabulary size stays put.
pub proof fn lemma_register_idempotent(tokens: Seq<Seq<char>>, t: Seq<char>)
    ensures
        spec_add(spec_add(tokens, t), t) == spec_add(tokens, t),
        spec_add(spec_add(tokens, t), t).len() == spec_add(tokens, t).len(),
{
    if !has_token(tokens, t) {
        assert(tokens.push(t)[tokens.len() as int] == t);
        assert(has_token(tokens.push(t), t));
    }
}

} // verus!
