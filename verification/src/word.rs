//! The working representation of one word during merge application: an
//! ordered sequence of symbols, each covering a contiguous character range of
//! the word.  The merge loop repeatedly fuses the adjacent pair whose merge
//! rule has the lowest rank (leftmost first among equal ranks) until no
//! adjacent pair has a rule.

use vstd::prelude::*;

use crate::merges::{
    MergeRule, MergeTable, lemma_rank_from_props, pair_rank, rule_ok, table_ok,
};

verus! {

/// One current subword unit: token id `id`, covering characters
/// `start .. end` of the original word.
#[derive(Clone, Copy, Debug, PartialEq, Eq, Structural)]
pub struct Symbol {
    pub id: usize,
    pub start: usize,
    pub end: usize,
}

/// The best merge candidate among positions `p >= k`: the pair position and
/// rule rank with the least rank, leftmost first among equal ranks; `None`
/// when no adjacent pair at or after `k` has a rule.  Encoded as
/// `(rank, position)`.
pub open spec fn best_cand(rules: Seq<MergeRule>, syms: Seq<Symbol>, k: int) -> Option<(int, int)>
    decreases syms.len() - k,
{
    if k < 0 || k + 1 >= syms.len() {
        None
    } else {
        let rest = best_cand(rules, syms, k + 1);
        match pair_rank(rules, syms[k].id, syms[k + 1].id) {
            None => rest,
            Some(r) => match rest {
                None => Some((r, k)),
                Some(b) => if r <= b.0 {
                    Some((r, k))
                } else {
                    Some(b)
                },
            },
        }
    }
}

/// The symbol that replaces the adjacent pair at position `p`.
pub open spec fn merged_symbol(syms: Seq<Symbol>, p: int, new_id: usize) -> Symbol {
    Symbol { id: new_id, start: syms[p].start, end: syms[p + 1].end }
}

/// `syms` with the pair at position `p` fused into one symbol carrying
/// `new_id`.
pub open spec fn splice(syms: Seq<Symbol>, p: int, new_id: usize) -> Seq<Symbol> {
    syms.subrange(0, p).push(merged_symbol(syms, p, new_id)) + syms.subrange(
        p + 2,
        syms.len() as int,
    )
}

/// What `best_cand` returns is a valid candidate of minimal rank (leftmost
/// among equal ranks), and `None` only when no candidate exists.
pub proof fn lemma_best_cand_props(rules: Seq<MergeRule>, syms: Seq<Symbol>, k: int)
    requires
        0 <= k,
    ensures
        match best_cand(rules, syms, k) {
            Some(b) => {
                &&& k <= b.1 && b.1 + 1 < syms.len()
                &&& 0 <= b.0 < rules.len()
                &&& pair_rank(rules, syms[b.1].id, syms[b.1 + 1].id) == Some(b.0)
                &&& rules[b.0].left == syms[b.1].id && rules[b.0].right == syms[b.1 + 1].id
                &&& forall|q: int|
                    k <= q && q + 1 < syms.len() ==> match #[trigger] pair_rank(
                        rules,
                        syms[q].id,
                        syms[q + 1].id,
                    ) {
                        Some(rq) => b.0 < rq || (b.0 == rq && b.1 <= q),
                        None => true,
                    }
            },
            None => forall|q: int|
                k <= q && q + 1 < syms.len() ==> #[trigger] pair_rank(
                    rules,
                    syms[q].id,
                    syms[q + 1].id,
                ) is None,
        },
    decreases syms.len() - k,
{
    if k + 1 < syms.len() {
        lemma_best_cand_props(rules, syms, k + 1);
        lemma_rank_from_props(rules, 0, syms[k].id, syms[k + 1].id);
    }
}

/// Per-symbol soundness and contiguity over a word of `wlen` characters and
/// a vocabulary of `vlen` tokens: every symbol covers a non-empty range
/// inside the word, consecutive symbols are contiguous, and every id is a
/// valid token id.
pub open spec fn syms_chain(syms: Seq<Symbol>, wlen: int, vlen: int) -> bool {
    &&& forall|i: int|
        0 <= i < syms.len() ==> (#[trigger] syms[i]).id < vlen && syms[i].start < syms[i].end
            <= wlen
    &&& forall|i: int| 0 <= i < syms.len() - 1 ==> (#[trigger] syms[i]).end == syms[i + 1].start
}

/// A chain that additionally spans the whole word, `0 .. wlen`.
pub open spec fn syms_frame(syms: Seq<Symbol>, wlen: int, vlen: int) -> bool {
    &&& syms_chain(syms, wlen, vlen)
    &&& syms.len() > 0 ==> syms[0].start == 0 && syms[syms.len() - 1].end == wlen
}

/// Every symbol's token string is exactly the slice of the word it covers.
/// This holds throughout tokenization when no affixes are configured and no
/// unknown-token substitution occurred, and is what makes decoded output
/// reproduce the word.
pub open spec fn syms_match_word(syms: Seq<Symbol>, word: Seq<char>, vocab: Seq<Seq<char>>) -> bool {
    forall|i: int|
        0 <= i < syms.len() ==> (#[trigger] syms[i]).id < vocab.len() && syms[i].end <= word.len()
            && vocab[syms[i].id as int] == word.subrange(syms[i].start as int, syms[i].end as int)
}

/// One splice at a rule-backed pair preserves the frame and the
/// match-the-word property.
pub proof fn lemma_splice_preserves(
    rules: Seq<MergeRule>,
    syms: Seq<Symbol>,
    word: Seq<char>,
    vocab: Seq<Seq<char>>,
    p: int,
    r: int,
)
    requires
        table_ok(rules, vocab),
        0 <= p && p + 1 < syms.len(),
        0 <= r < rules.len(),
        rules[r].left == syms[p].id && rules[r].right == syms[p + 1].id,
        syms_frame(syms, word.len() as int, vocab.len() as int),
    ensures
        syms_frame(splice(syms, p, rules[r].new_id), word.len() as int, vocab.len() as int),
        splice(syms, p, rules[r].new_id).len() == syms.len() - 1,
        syms_match_word(syms, word, vocab) ==> syms_match_word(
            splice(syms, p, rules[r].new_id),
            word,
            vocab,
        ),
{
    let res = splice(syms, p, rules[r].new_id);
    assert(rule_ok(rules[r], vocab));
    assert forall|i: int| 0 <= i < res.len() - 1 implies (#[trigger] res[i]).end == res[i
        + 1].start by {
        if i < p - 1 {
            assert(res[i] == syms[i] && res[i + 1] == syms[i + 1]);
        } else if i == p - 1 {
            assert(res[i] == syms[i]);
        } else if i == p {
            assert(res[i + 1] == syms[i + 2]);
        } else {
            assert(res[i] == syms[i + 1] && res[i + 1] == syms[i + 2]);
        }
    }
    if syms_match_word(syms, word, vocab) {
        assert forall|i: int| 0 <= i < res.len() implies (#[trigger] res[i]).id < vocab.len()
            && res[i].end <= word.len() && vocab[res[i].id as int] == word.subrange(
            res[i].start as int,
            res[i].end as int,
        ) by {
            if i == p {
                let l = syms[p];
                let rr = syms[p + 1];
                assert(vocab[rules[r].new_id as int] == vocab[l.id as int] + vocab[rr.id as int]);
                assert(word.subrange(l.start as int, l.end as int) + word.subrange(
                    rr.start as int,
                    rr.end as int,
                ) =~= word.subrange(l.start as int, rr.end as int));
            } else if i < p {
                assert(res[i] == syms[i]);
            } else {
                assert(res[i] == syms[i + 1]);
            }
        }
    }
}

/// Applying merges greedily: fuse the best candidate until none remains.
pub open spec fn apply_merges(rules: Seq<MergeRule>, syms: Seq<Symbol>) -> Seq<Symbol>
    decreases syms.len(),
    via apply_merges_decreases
{
    match best_cand(rules, syms, 0) {
        None => syms,
        Some(b) => apply_merges(rules, splice(syms, b.1, rules[b.0].new_id)),
    }
}

#[via_fn]
proof fn apply_merges_decreases(rules: Seq<MergeRule>, syms: Seq<Symbol>) {
    match best_cand(rules, syms, 0) {
        Some(b) => {
            lemma_best_cand_props(rules, syms, 0);
            assert(splice(syms, b.1, rules[b.0].new_id).len() == syms.len() - 1);
        },
        None => {},
    }
}

/// The merge loop preserves the frame, never grows the sequence, keeps the
/// overall span, and keeps every symbol matching its word slice.
pub proof fn lemma_apply_merges_good(
    rules: Seq<MergeRule>,
    syms: Seq<Symbol>,
    word: Seq<char>,
    vocab: Seq<Seq<char>>,
)
    requires
        table_ok(rules, vocab),
        syms_frame(syms, word.len() as int, vocab.len() as int),
    ensures
        syms_frame(apply_merges(rules, syms), word.len() as int, vocab.len() as int),
        apply_merges(rules, syms).len() <= syms.len(),
        syms.len() > 0 ==> apply_merges(rules, syms).len() > 0,
        syms.len() == 0 ==> apply_merges(rules, syms) == syms,
        syms_match_word(syms, word, vocab) ==> syms_match_word(
            apply_merges(rules, syms),
            word,
            vocab,
        ),
    decreases syms.len(),
{
    match best_cand(rules, syms, 0) {
        None => {},
        Some(b) => {
            lemma_best_cand_props(rules, syms, 0);
            lemma_splice_preserves(rules, syms, word, vocab, b.1, b.0);
            lemma_apply_merges_good(rules, splice(syms, b.1, rules[b.0].new_id), word, vocab);
        },
    }
}

/// Merge monotonicity: a higher-priority (lower-rank) merge is never
/// skipped in favor of a lower-priority one.  Whenever any candidate pair
/// exists, the step the pipeline takes is a candidate of minimal rank —
/// every other candidate's rank is no smaller, and among equal ranks the
/// leftmost is taken — and when no candidate exists the word is left as it
/// stands.
pub proof fn lemma_merge_priority(rules: Seq<MergeRule>, syms: Seq<Symbol>)
    ensures
        match best_cand(rules, syms, 0) {
            Some(b) => {
                &&& 0 <= b.1 && b.1 + 1 < syms.len()
                &&& pair_rank(rules, syms[b.1].id, syms[b.1 + 1].id) == Some(b.0)
                &&& forall|q: int|
                    0 <= q && q + 1 < syms.len() ==> match #[trigger] pair_rank(
                        rules,
                        syms[q].id,
                        syms[q + 1].id,
                    ) {
                        Some(rq) => b.0 < rq || (b.0 == rq && b.1 <= q),
                        None => true,
                    }
                &&& apply_merges(rules, syms) == apply_merges(
                    rules,
                    splice(syms, b.1, rules[b.0].new_id),
                )
            },
            None => apply_merges(rules, syms) == syms,
        },
{
    lemma_best_cand_props(rules, syms, 0);
}

/// A symbol whose id no merge rule names — on either side — is never
/// merged away: it survives the whole merge loop unchanged.
pub proof fn lemma_unmergeable_symbol_survives(rules: Seq<MergeRule>, syms: Seq<Symbol>, k: int)
    requires
        0 <= k < syms.len(),
        forall|r: int|
            0 <= r < rules.len() ==> (#[trigger] rules[r]).left != syms[k].id && rules[r].right
                != syms[k].id,
    ensures
        exists|j: int|
            0 <= j < apply_merges(rules, syms).len() && #[trigger] apply_merges(rules, syms)[j]
                == syms[k],
    decreases syms.len(),
{
    match best_cand(rules, syms, 0) {
        None => {
            assert(apply_merges(rules, syms)[k] == syms[k]);
        },
        Some(b) => {
            lemma_best_cand_props(rules, syms, 0);
            assert(rules[b.0].left == syms[b.1].id && rules[b.0].right == syms[b.1 + 1].id);
            assert(b.1 != k && b.1 + 1 != k);
            let spliced = splice(syms, b.1, rules[b.0].new_id);
            let k2 = if k < b.1 {
                k
            } else {
                k - 1
            };
            assert(spliced[k2] == syms[k]);
            lemma_unmergeable_symbol_survives(rules, spliced, k2);
            assert(apply_merges(rules, syms) == apply_merges(rules, spliced));
            let j0 = choose|j: int|
                0 <= j < apply_merges(rules, spliced).len() && #[trigger] apply_merges(
                    rules,
                    spliced,
                )[j] == spliced[k2];
            assert(apply_merges(rules, syms)[j0] == syms[k]);
        },
    }
}

/// Whether an exec candidate (rank, position) equals a spec candidate.
pub open spec fn cand_eq(e: Option<(usize, usize)>, s: Option<(int, int)>) -> bool {
    match (e, s) {
        (Option::None, Option::None) => true,
        (Option::Some(a), Option::Some(b)) => a.0 == b.0 && a.1 == b.1,
        _ => false,
    }
}

/// Finds the best merge candidate over the whole symbol sequence, as
/// `(rank, position)`.
fn find_best(table: &MergeTable, syms: &Vec<Symbol>) -> (r: Option<(usize, usize)>)
    ensures
        cand_eq(r, best_cand(table@, syms@, 0)),
{
    let n = syms.len();
    if n < 2 {
        return None;
    }
    let mut best: Option<(usize, usize)> = None;
    let mut p: usize = n - 1;
    while p > 0
        invariant
            n == syms@.len(),
            2 <= n,
            p <= n - 1,
            cand_eq(best, best_cand(table@, syms@, p as int)),
        decreases p,
    {
        p = p - 1;
        let cur = table.lookup(syms[p].id, syms[p + 1].id);
        best = match (cur, best) {
            (Option::None, b) => b,
            (Option::Some(c), Option::None) => Some((c.0, p)),
            (Option::Some(c), Option::Some(b)) => if c.0 <= b.0 {
                Some((c.0, p))
            } else {
                Some(b)
            },
        };
    }
    best
}

/// Greedily applies all merges to `syms`, lowest rank first; the result is
/// exactly `apply_merges` of the input.
pub fn merge_word(table: &MergeTable, syms: &mut Vec<Symbol>)
    ensures
        final(syms)@ == apply_merges(table@, old(syms)@),
{
    let ghost orig = syms@;
    let mut done = false;
    while !done
        invariant
            apply_merges(table@, syms@) == apply_merges(table@, orig),
            done ==> best_cand(table@, syms@, 0) is None,
        decreases syms@.len() + (if done {
            0int
        } else {
            1int
        }),
    {
        match find_best(table, syms) {
            None => {
                done = true;
            },
            Some(rp) => {
                proof {
                    lemma_best_cand_props(table@, syms@, 0);
                    assert(best_cand(table@, syms@, 0) == Some((rp.0 as int, rp.1 as int)));
                    assert(rp.1 + 1 < syms@.len());
                }
                let rule = match table.rule_at(rp.0) {
                    Some(rule) => rule,
                    None => {
                        proof {
                            assert(false);
                        }
                        MergeRule { left: 0, right: 0, new_id: 0 }
                    },
                };
                let p = rp.1;
                let n_now = syms.len();
                assert(p + 1 < n_now);
                let ghost pre = syms@;
                let merged = Symbol { id: rule.new_id, start: syms[p].start, end: syms[p + 1].end };
                syms[p] = merged;
                syms.remove(p + 1);
                proof {
                    assert(syms@ =~= splice(pre, p as int, rule.new_id));
                }
            },
        }
    }
}

} // verus!
