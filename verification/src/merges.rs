//! The merge table: the ordered list of merge rules.  A rule's rank is its
//! index — lower rank means higher priority — and `lookup` resolves an
//! adjacent pair of token ids to the earliest rule for that pair.

use vstd::prelude::*;

use crate::BpeError;
use crate::vocab::{Vocabulary, has_token, token_index};

verus! {

/// One merge rule: the adjacent pair `(left, right)` of token ids merges
/// into the single token `new_id`.  The rank is the rule's index in the
/// table.
#[derive(Clone, Copy, Debug, PartialEq, Eq, Structural)]
pub struct MergeRule {
    pub left: usize,
    pub right: usize,
    pub new_id: usize,
}

/// One merge pair as loaded from merges data: two token strings.
pub struct MergePair {
    pub left: String,
    pub right: String,
}

/// Rule `rule` is coherent with `vocab`: all three ids exist and the merged
/// token is exactly the concatenation of the two constituent tokens.
pub open spec fn rule_ok(rule: MergeRule, vocab: Seq<Seq<char>>) -> bool {
    &&& rule.left < vocab.len()
    &&& rule.right < vocab.len()
    &&& rule.new_id < vocab.len()
    &&& vocab[rule.new_id as int] == vocab[rule.left as int] + vocab[rule.right as int]
}

/// Every rule of the table is coherent with `vocab`.
pub open spec fn table_ok(rules: Seq<MergeRule>, vocab: Seq<Seq<char>>) -> bool {
    forall|k: int| 0 <= k < rules.len() ==> #[trigger] rule_ok(rules[k], vocab)
}

/// The least index `>= i` at which `rules` holds the pair `(a, b)`.
pub open spec fn rank_from(rules: Seq<MergeRule>, i: int, a: usize, b: usize) -> Option<int>
    decreases rules.len() - i,
{
    if i < 0 || i >= rules.len() {
        None
    } else if rules[i].left == a && rules[i].right == b {
        Some(i)
    } else {
        rank_from(rules, i + 1, a, b)
    }
}

/// The rank of the pair `(a, b)`: the least index of a rule for it, or
/// `None` when the table has no rule for the pair.
pub open spec fn pair_rank(rules: Seq<MergeRule>, a: usize, b: usize) -> Option<int> {
    rank_from(rules, 0, a, b)
}

/// What `rank_from` returns is the least matching index at or after `i`.
pub proof fn lemma_rank_from_props(rules: Seq<MergeRule>, i: int, a: usize, b: usize)
    requires
        0 <= i,
    ensures
        match rank_from(rules, i, a, b) {
            Some(r) => {
                &&& i <= r < rules.len()
                &&& rules[r].left == a && rules[r].right == b
                &&& forall|k: int|
                    i <= k < r ==> !(rules[k].left == a && #[trigger] (rules[k].right) == b)
            },
            None => forall|k: int|
                i <= k < rules.len() ==> !(rules[k].left == a && #[trigger] (rules[k].right) == b),
        },
    decreases rules.len() - i,
{
    if i < rules.len() && !(rules[i].left == a && rules[i].right == b) {
        lemma_rank_from_props(rules, i + 1, a, b);
    }
}

/// Rule coherence survives extending the vocabulary: existing ids keep
/// their tokens.
pub proof fn lemma_table_ok_extends(
    rules: Seq<MergeRule>,
    v1: Seq<Seq<char>>,
    v2: Seq<Seq<char>>,
)
    requires
        table_ok(rules, v1),
        crate::vocab::seq_extends(v2, v1),
    ensures
        table_ok(rules, v2),
{
    assert forall|k: int| 0 <= k < rules.len() implies #[trigger] rule_ok(rules[k], v2) by {
        assert(rule_ok(rules[k], v1));
    }
}

/// Ordered collection of merge rules, indexed by rank.
pub struct MergeTable {
    rules: Vec<MergeRule>,
}

impl View for MergeTable {
    type V = Seq<MergeRule>;

    closed spec fn view(&self) -> Seq<MergeRule> {
        self.rules@
    }
}

impl MergeTable {
    /// An empty table.
    pub fn new() -> (t: MergeTable)
        ensures
            t@ =~= Seq::<MergeRule>::empty(),
    {
        MergeTable { rules: Vec::new() }
    }

    /// Number of rules; ranks are exactly `0 .. len`.
    pub fn len(&self) -> (n: usize)
        ensures
            n == self@.len(),
    {
        self.rules.len()
    }

    /// The rule at rank `rank`, if in range.
    pub fn rule_at(&self, rank: usize) -> (r: Option<MergeRule>)
        ensures
            match r {
                Some(rule) => rank < self@.len() && rule == self@[rank as int],
                None => rank >= self@.len(),
            },
    {
        if rank < self.rules.len() {
            Some(self.rules[rank])
        } else {
            None
        }
    }

    /// Appends a rule under the next rank (used by the trainer as merges are
    /// discovered).
    pub fn push_rule(&mut self, rule: MergeRule)
        ensures
            final(self)@ == old(self)@.push(rule),
    {
        self.rules.push(rule);
    }

    /// The earliest rule for the pair `(left, right)`, as `(rank, new_id)`.
    pub fn lookup(&self, left: usize, right: usize) -> (r: Option<(usize, usize)>)
        ensures
            match r {
                Some(p) => {
                    &&& pair_rank(self@, left, right) == Some(p.0 as int)
                    &&& p.0 < self@.len()
                    &&& p.1 == self@[p.0 as int].new_id
                },
                None => pair_rank(self@, left, right) is None,
            },
    {
        let n = self.rules.len();
        for k in 0..n
            invariant
                n == self@.len(),
                pair_rank(self@, left, right) == rank_from(self@, k as int, left, right),
        {
            let rule = self.rules[k];
            if rule.left == left && rule.right == right {
                return Some((k, rule.new_id));
            }
        }
        None
    }

    /// Resolves a list of token-string pairs against `vocab` into a merge
    /// table, in list order (line order = rank order).  Succeeds exactly when
    /// every pair's two tokens and their concatenation are all in the
    /// vocabulary; otherwise reports the rank of the first offending pair.
    pub fn from_pairs(pairs: &Vec<MergePair>, vocab: &Vocabulary) -> (r: Result<
        MergeTable,
        BpeError,
    >)
        requires
            vocab.wf(),
        ensures
            match r {
                Ok(t) => {
                    &&& table_ok(t@, vocab@)
                    &&& t@.len() == pairs@.len()
                    &&& forall|k: int|
                        0 <= k < pairs@.len() ==> #[trigger] pair_resolved(t@[k], pairs@[k], vocab@)
                },
                Err(e) => {
                    &&& (e matches BpeError::MergeTokenMissing { rank } && {
                        &&& rank < pairs@.len()
                        &&& !pair_in_vocab(pairs@[rank as int], vocab@)
                        &&& forall|j: int|
                            0 <= j < rank ==> #[trigger] pair_in_vocab(pairs@[j], vocab@)
                    })
                },
            },
            (r is Ok) <==> (forall|k: int|
                0 <= k < pairs@.len() ==> #[trigger] pair_in_vocab(pairs@[k], vocab@)),
    {
        let mut table = MergeTable::new();
        let n = pairs.len();
        for k in 0..n
            invariant
                n == pairs@.len(),
                vocab.wf(),
                table@.len() == k,
                table_ok(table@, vocab@),
                forall|j: int|
                    0 <= j < k ==> #[trigger] pair_resolved(table@[j], pairs@[j], vocab@),
                forall|j: int| 0 <= j < k ==> #[trigger] pair_in_vocab(pairs@[j], vocab@),
        {
            let left = match vocab.get_id(pairs[k].left.as_str()) {
                Some(i) => i,
                None => {
                    assert(!pair_in_vocab(pairs@[k as int], vocab@));
                    return Err(BpeError::MergeTokenMissing { rank: k });
                },
            };
            let right = match vocab.get_id(pairs[k].right.as_str()) {
                Some(i) => i,
                None => {
                    assert(!pair_in_vocab(pairs@[k as int], vocab@));
                    return Err(BpeError::MergeTokenMissing { rank: k });
                },
            };
            let merged = pairs[k].left.clone().concat(pairs[k].right.as_str());
            assert(merged@ == pairs@[k as int].left@ + pairs@[k as int].right@);
            let new_id = match vocab.get_id(merged.as_str()) {
                Some(i) => i,
                None => {
                    assert(!pair_in_vocab(pairs@[k as int], vocab@));
                    return Err(BpeError::MergeTokenMissing { rank: k });
                },
            };
            let rule = MergeRule { left, right, new_id };
            proof {
                assert(rule_ok(rule, vocab@));
                assert(pair_resolved(rule, pairs@[k as int], vocab@));
                assert(has_token(vocab@, pairs@[k as int].left@));
                assert(has_token(vocab@, pairs@[k as int].right@));
                assert(has_token(vocab@, pairs@[k as int].left@ + pairs@[k as int].right@));
                assert(pair_in_vocab(pairs@[k as int], vocab@));
            }
            let ghost prev = table@;
            table.push_rule(rule);
            proof {
                assert(table@ == prev.push(rule));
                assert forall|j: int| 0 <= j < k + 1 implies #[trigger] pair_resolved(
                    table@[j],
                    pairs@[j],
                    vocab@,
                ) by {
                    if j < k {
                        assert(table@[j] == prev[j]);
                        assert(pair_resolved(prev[j], pairs@[j], vocab@));
                    } else {
                        assert(table@[j] == rule);
                    }
                }
                assert forall|j: int| 0 <= j < k + 1 implies rule_ok(
                    #[trigger] table@[j],
                    vocab@,
                ) by {
                    assert(pair_resolved(table@[j], pairs@[j], vocab@));
                }
            }
        }
        Ok(table)
    }

    /// Validates a raw element list (each inner list must hold exactly two
    /// token strings) into merge pairs; rejects the first inner list of any
    /// other length, naming its position and length.
    pub fn pairs_from_lists(lists: Vec<Vec<String>>) -> (r: Result<Vec<MergePair>, BpeError>)
        ensures
            match r {
                Ok(pairs) => {
                    &&& pairs@.len() == lists@.len()
                    &&& forall|k: int| 0 <= k < lists@.len() ==> #[trigger] (lists@[k]@.len()) == 2
                    &&& forall|k: int|
                        0 <= k < lists@.len() ==> (#[trigger] pairs@[k]).left@ == lists@[k]@[0]@
                            && pairs@[k].right@ == lists@[k]@[1]@
                },
                Err(e) => {
                    &&& (e matches BpeError::MalformedMergeEntry { index, found } && {
                        &&& index < lists@.len()
                        &&& lists@[index as int]@.len() == found
                        &&& found != 2
                        &&& forall|j: int| 0 <= j < index ==> #[trigger] (lists@[j]@.len()) == 2
                    })
                },
            },
            (r is Ok) <==> (forall|k: int| 0 <= k < lists@.len() ==> #[trigger] (lists@[k]@.len())
                == 2),
    {
        let mut pairs: Vec<MergePair> = Vec::new();
        let n = lists.len();
        for k in 0..n
            invariant
                n == lists@.len(),
                pairs@.len() == k,
                forall|j: int| 0 <= j < k ==> #[trigger] (lists@[j]@.len()) == 2,
                forall|j: int|
                    0 <= j < k ==> (#[trigger] pairs@[j]).left@ == lists@[j]@[0]@
                        && pairs@[j].right@ == lists@[j]@[1]@,
        {
            if lists[k].len() != 2 {
                return Err(
                    BpeError::MalformedMergeEntry { index: k, found: lists[k].len() },
                );
            }
            let left = lists[k][0].clone();
            let right = lists[k][1].clone();
            let ghost prev = pairs@;
            pairs.push(MergePair { left, right });
            proof {
                assert(pairs@[k as int].left@ == lists@[k as int]@[0]@);
                assert(pairs@[k as int].right@ == lists@[k as int]@[1]@);
                assert forall|j: int| 0 <= j < k implies (#[trigger] pairs@[j]).left@
                    == lists@[j]@[0]@ && pairs@[j].right@ == lists@[j]@[1]@ by {
                    assert(pairs@[j] == prev[j]);
                }
            }
        }
        Ok(pairs)
    }
}

/// `rule` is the resolution of the token-string pair `pair` against `vocab`:
/// its ids name exactly those strings and their concatenation.
pub open spec fn pair_resolved(rule: MergeRule, pair: MergePair, vocab: Seq<Seq<char>>) -> bool {
    &&& rule_ok(rule, vocab)
    &&& vocab[rule.left as int] == pair.left@
    &&& vocab[rule.right as int] == pair.right@
}

/// Both tokens of `pair`, and their concatenation, are in `vocab`.
pub open spec fn pair_in_vocab(pair: MergePair, vocab: Seq<Seq<char>>) -> bool {
    &&& has_token(vocab, pair.left@)
    &&& has_token(vocab, pair.right@)
    &&& has_token(vocab, pair.left@ + pair.right@)
}

} // verus!
