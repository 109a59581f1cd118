//! The vocabulary: a bidirectional mapping between token strings and dense
//! integer ids.  Id `i` is simply the index of the token in the underlying
//! sequence, so ids are contiguous from 0 with no gaps; well-formedness says
//! the sequence holds no duplicate token, which makes the mapping bijective.

use vstd::prelude::*;

use crate::BpeError;

verus! {

/// True when `tokens` holds `t` at some index.
pub open spec fn has_token(tokens: Seq<Seq<char>>, t: Seq<char>) -> bool {
    exists|i: int| 0 <= i < tokens.len() && tokens[i] == t
}

/// The index of `t` in `tokens` (meaningful only when `has_token` holds;
/// under `tokens_unique` that index is unique).
pub open spec fn token_index(tokens: Seq<Seq<char>>, t: Seq<char>) -> int {
    choose|i: int| 0 <= i < tokens.len() && tokens[i] == t
}

/// The contents after adding `t`: unchanged when present, else appended
/// under the next id.  This is exactly what `Vocabulary::add` does.
pub open spec fn spec_add(tokens: Seq<Seq<char>>, t: Seq<char>) -> Seq<Seq<char>> {
    if has_token(tokens, t) {
        tokens
    } else {
        tokens.push(t)
    }
}

/// `v2` extends `v1`: every id of `v1` still names the same token.
/// Vocabularies only ever grow this way (`add` appends).
pub open spec fn seq_extends(v2: Seq<Seq<char>>, v1: Seq<Seq<char>>) -> bool {
    &&& v1.len() <= v2.len()
    &&& forall|i: int| 0 <= i < v1.len() ==> v2[i] == v1[i]
}

/// A token present before an extension is still present after it.
pub proof fn lemma_has_token_extends(v2: Seq<Seq<char>>, v1: Seq<Seq<char>>, t: Seq<char>)
    requires
        has_token(v1, t),
        seq_extends(v2, v1),
    ensures
        has_token(v2, t),
{
    let i = choose|i: int| 0 <= i < v1.len() && v1[i] == t;
    assert(v2[i] == t);
}

/// No token stands at two indices.
pub open spec fn tokens_unique(tokens: Seq<Seq<char>>) -> bool {
    forall|i: int, j: int| 0 <= i < j < tokens.len() ==> tokens[i] != tokens[j]
}

/// Under uniqueness, `token_index` recovers exactly the index a token
/// stands at.
pub proof fn lemma_token_index(tokens: Seq<Seq<char>>, id: int, t: Seq<char>)
    requires
        tokens_unique(tokens),
        0 <= id < tokens.len(),
        tokens[id] == t,
    ensures
        has_token(tokens, t),
        token_index(tokens, t) == id,
{
    assert(has_token(tokens, t));
    let j = token_index(tokens, t);
    if j < id {
        assert(tokens[j] != tokens[id]);
    } else if j > id {
        assert(tokens[id] != tokens[j]);
    }
}

/// Bidirectional token-string / token-id mapping with dense ids.
pub struct Vocabulary {
    tokens: Vec<String>,
}

impl View for Vocabulary {
    type V = Seq<Seq<char>>;

    /// The mathematical content: token strings indexed by id.
    closed spec fn view(&self) -> Seq<Seq<char>> {
        self.tokens@.map(|i: int, s: String| s@)
    }
}

impl Vocabulary {
    /// Well-formed: no token occurs under two ids, so `get_id` and
    /// `get_token` are mutually inverse.
    pub open spec fn wf(&self) -> bool {
        tokens_unique(self@)
    }

    /// An empty vocabulary.
    pub fn new() -> (v: Vocabulary)
        ensures
            v@ =~= Seq::<Seq<char>>::empty(),
            v.wf(),
    {
        Vocabulary { tokens: Vec::new() }
    }

    /// Number of tokens; ids are exactly `0 .. len`.
    pub fn len(&self) -> (n: usize)
        ensures
            n == self@.len(),
    {
        self.tokens.len()
    }

    /// Builds a vocabulary from an id-ordered token list (the shape the
    /// external vocabulary loader hands over: the token with id `i` stands at
    /// index `i`).  Rejects a list holding the same token twice; `index` in
    /// the error is the position of the second occurrence.
    pub fn from_tokens(tokens: Vec<String>) -> (r: Result<Vocabulary, BpeError>)
        ensures
            match r {
                Ok(v) => {
                    &&& v@ == tokens@.map(|i: int, s: String| s@)
                    &&& v.wf()
                },
                Err(e) => {
                    &&& (e matches BpeError::DuplicateVocabToken { index } && {
                        &&& index < tokens@.len()
                        &&& exists|i: int| 0 <= i < index && tokens@[i]@ == tokens@[index as int]@
                        &&& forall|a: int, b: int|
                            0 <= a < b < index ==> tokens@[a]@ != tokens@[b]@
                    })
                },
            },
    {
        let ghost toks = tokens@.map(|i: int, s: String| s@);
        let n = tokens.len();
        let mut j: usize = 1;
        while j < n
            invariant
                n == tokens@.len(),
                toks == tokens@.map(|i: int, s: String| s@),
                forall|a: int, b: int| 0 <= a < b < j ==> toks[a] != toks[b],
            decreases n - j,
        {
            let mut i: usize = 0;
            while i < j
                invariant
                    i <= j < n == tokens@.len(),
                    toks == tokens@.map(|i: int, s: String| s@),
                    forall|a: int, b: int| 0 <= a < b < j ==> toks[a] != toks[b],
                    forall|a: int| 0 <= a < i ==> toks[a] != toks[j as int],
                decreases j - i,
            {
                if tokens[i].eq(&tokens[j]) {
                    proof {
                        assert(tokens@[i as int]@ == tokens@[j as int]@);
                        assert forall|a: int, b: int| 0 <= a < b < j implies tokens@[a]@
                            != tokens@[b]@ by {
                            assert(toks[a] == tokens@[a]@ && toks[b] == tokens@[b]@);
                        }
                    }
                    return Err(BpeError::DuplicateVocabToken { index: j });
                }
                i += 1;
            }
            j += 1;
        }
        Ok(Vocabulary { tokens })
    }

    /// The id of `token`, if present.  Under `wf` the returned id is the one
    /// index at which the token stands.
    pub fn get_id(&self, token: &str) -> (r: Option<usize>)
        ensures
            match r {
                Some(i) => 0 <= i < self@.len() && self@[i as int] == token@,
                None => !has_token(self@, token@),
            },
    {
        let t = String::from_str(token);
        let n = self.tokens.len();
        for i in 0..n
            invariant
                n == self@.len(),
                t@ == token@,
                self@ == self.tokens@.map(|k: int, s: String| s@),
                forall|k: int| 0 <= k < i ==> self@[k] != token@,
        {
            if self.tokens[i].eq(&t) {
                return Some(i);
            }
        }
        None
    }

    /// True when `token` already has an id.
    pub fn contains(&self, token: &str) -> (r: bool)
        ensures
            r == has_token(self@, token@),
    {
        self.get_id(token).is_some()
    }

    /// The token string under id `id`, if `id` is in range.
    pub fn get_token(&self, id: usize) -> (r: Option<String>)
        ensures
            match r {
                Some(s) => id < self@.len() && s@ == self@[id as int],
                None => id >= self@.len(),
            },
    {
        if id < self.tokens.len() {
            Some(self.tokens[id].clone())
        } else {
            None
        }
    }

    /// Inserts `token` and returns its id; idempotent: a token already
    /// present keeps its id and the vocabulary is unchanged, otherwise the
    /// token is appended under the next dense id.
    pub fn add(&mut self, token: &str) -> (id: usize)
        requires
            old(self).wf(),
        ensures
            final(self).wf(),
            id < final(self)@.len(),
            final(self)@[id as int] == token@,
            has_token(old(self)@, token@) ==> final(self)@ == old(self)@,
            !has_token(old(self)@, token@) ==> {
                &&& final(self)@ =~= old(self)@.push(token@)
                &&& id == old(self)@.len()
            },
    {
        match self.get_id(token) {
            Some(i) => i,
            None => {
                let id = self.tokens.len();
                self.tokens.push(String::from_str(token));
                assert(self@ =~= old(self)@.push(token@));
                id
            },
        }
    }
}

} // verus!
