//! The BPE model: configuration, the word splitter, the encoding cache, and
//! `tokenize`.  A word is split into one symbol per character (with the
//! continuing-subword prefix applied to every non-initial symbol and the
//! end-of-word suffix to the final one), unknown characters fall back to the
//! configured unknown token (adjacent fallbacks optionally fused), and the
//! merge loop of `crate::word` then fuses pairs by rank.

use vstd::prelude::*;

use crate::BpeError;
use crate::merges::{MergePair, MergeRule, MergeTable, table_ok};
use crate::vocab::{Vocabulary, has_token, lemma_token_index, token_index, tokens_unique};
use crate::word::{
    Symbol, apply_merges, lemma_apply_merges_good, merge_word, syms_chain, syms_frame,
    syms_match_word,
};

verus! {

/// Denominator of the dropout probability: a dropout numerator `d` means
/// each candidate merge is skipped with probability `d / DROPOUT_SCALE`.
/// A valid numerator is strictly below the scale (probability in `[0, 1)`).
pub const DROPOUT_SCALE: u32 = 10000;

/// Cache capacity used when none is configured.
pub const DEFAULT_CACHE_CAPACITY: usize = 10000;

/// The rendered form of character `i` of `word` as looked up in the
/// vocabulary: the continuing-subword prefix is prepended for every
/// non-initial character and the end-of-word suffix appended for the final
/// one.
pub open spec fn render_at(word: Seq<char>, i: int, prefix: Seq<char>, suffix: Seq<char>) -> Seq<
    char,
> {
    (if i > 0 {
        prefix
    } else {
        Seq::<char>::empty()
    }) + word.subrange(i, i + 1) + (if i + 1 == word.len() {
        suffix
    } else {
        Seq::<char>::empty()
    })
}

/// The least index `>= i` whose rendered character is absent from the
/// vocabulary.
pub open spec fn first_unknown_from(
    word: Seq<char>,
    vocab: Seq<Seq<char>>,
    prefix: Seq<char>,
    suffix: Seq<char>,
    i: int,
) -> Option<int>
    decreases word.len() - i,
{
    if i < 0 || i >= word.len() {
        None
    } else if !has_token(vocab, render_at(word, i, prefix, suffix)) {
        Some(i)
    } else {
        first_unknown_from(word, vocab, prefix, suffix, i + 1)
    }
}

/// The first character of `word` whose rendered form is not in the
/// vocabulary, or `None` when every character resolves.
pub open spec fn first_unknown(
    word: Seq<char>,
    vocab: Seq<Seq<char>>,
    prefix: Seq<char>,
    suffix: Seq<char>,
) -> Option<int> {
    first_unknown_from(word, vocab, prefix, suffix, 0)
}

/// A word can be tokenized exactly when every rendered character is known or
/// an unknown-token fallback is configured.
pub open spec fn word_resolvable(
    word: Seq<char>,
    vocab: Seq<Seq<char>>,
    prefix: Seq<char>,
    suffix: Seq<char>,
    unk: Option<usize>,
) -> bool {
    unk is Some || first_unknown(word, vocab, prefix, suffix) is None
}

/// The initial symbol sequence: one symbol per character, resolved through
/// the vocabulary, with unknown characters mapped to the fallback id.
/// Meaningful when `word_resolvable` holds.
pub open spec fn init_syms(
    word: Seq<char>,
    vocab: Seq<Seq<char>>,
    prefix: Seq<char>,
    suffix: Seq<char>,
    unk: Option<usize>,
) -> Seq<Symbol> {
    Seq::new(
        word.len(),
        |i: int|
            Symbol {
                id: if has_token(vocab, render_at(word, i, prefix, suffix)) {
                    token_index(vocab, render_at(word, i, prefix, suffix)) as usize
                } else {
                    unk->Some_0
                },
                start: i as usize,
                end: (i + 1) as usize,
            },
    )
}

/// Which positions of the split fell back to the unknown token: position
/// `i` is flagged exactly when its rendered form is absent from the
/// vocabulary.
pub open spec fn init_flags(
    word: Seq<char>,
    vocab: Seq<Seq<char>>,
    prefix: Seq<char>,
    suffix: Seq<char>,
) -> Seq<bool> {
    Seq::new(word.len(), |i: int| !has_token(vocab, render_at(word, i, prefix, suffix)))
}

/// Collapses every run of adjacent fallback symbols — adjacent positions
/// whose flag is set — into a single symbol carrying the fallback id and
/// spanning the run.  Fusing goes by fallback origin, never by id, so a
/// known character whose id happens to equal the fallback id is left
/// alone.
pub open spec fn fuse_runs(syms: Seq<Symbol>, flags: Seq<bool>, unk: usize) -> Seq<Symbol>
    decreases syms.len(),
{
    if syms.len() == 0 {
        syms
    } else {
        let rest = fuse_runs(syms.drop_first(), flags.drop_first(), unk);
        if flags[0] && syms.len() > 1 && flags[1] {
            seq![Symbol { id: unk, start: syms[0].start, end: rest[0].end }] + rest.drop_first()
        } else {
            seq![syms[0]] + rest
        }
    }
}

/// With no position flagged, fusing changes nothing.
pub proof fn lemma_fuse_runs_unflagged(syms: Seq<Symbol>, flags: Seq<bool>, unk: usize)
    requires
        flags.len() == syms.len(),
        forall|i: int| 0 <= i < syms.len() ==> !flags[i],
    ensures
        fuse_runs(syms, flags, unk) == syms,
    decreases syms.len(),
{
    if syms.len() > 0 {
        let tail = syms.drop_first();
        assert(forall|i: int| 0 <= i < tail.len() ==> #[trigger] tail[i] == syms[i + 1]);
        assert forall|i: int| 0 <= i < tail.len() implies !(#[trigger] flags.drop_first()[i]) by {
            assert(flags.drop_first()[i] == flags[i + 1]);
        }
        lemma_fuse_runs_unflagged(tail, flags.drop_first(), unk);
        assert(fuse_runs(syms, flags, unk) =~= syms);
    }
}

/// Along a contiguous chain, starts strictly increase.
proof fn lemma_chain_starts(syms: Seq<Symbol>, wlen: int, vlen: int, i: int, j: int)
    requires
        syms_chain(syms, wlen, vlen),
        0 <= i < j < syms.len(),
    ensures
        syms[i].start < syms[j].start,
    decreases j - i,
{
    assert(syms[i].start < syms[i].end && syms[i].end == syms[i + 1].start);
    if i + 1 < j {
        lemma_chain_starts(syms, wlen, vlen, i + 1, j);
    }
}

/// A flagged run at the head of the sequence fuses into exactly one
/// symbol, the first of the output, spanning the whole run.
proof fn lemma_fuse_runs_head(
    syms: Seq<Symbol>,
    flags: Seq<bool>,
    unk: usize,
    b: int,
)
    requires
        flags.len() == syms.len(),
        0 < b <= syms.len(),
        forall|i: int| 0 <= i < b ==> flags[i],
        b == syms.len() || !flags[b],
        forall|i: int| 0 <= i < b ==> (#[trigger] syms[i]).id == unk,
    ensures
        fuse_runs(syms, flags, unk).len() > 0,
        fuse_runs(syms, flags, unk)[0] == (Symbol {
            id: unk,
            start: syms[0].start,
            end: syms[b - 1].end,
        }),
    decreases syms.len(),
{
    let tail = syms.drop_first();
    let tf = flags.drop_first();
    let rest = fuse_runs(tail, tf, unk);
    let out = fuse_runs(syms, flags, unk);
    if b == 1 {
        assert(!(flags[0] && syms.len() > 1 && flags[1]));
        assert(out[0] == syms[0]);
    } else {
        assert(flags[0] && syms.len() > 1 && flags[1]);
        assert(forall|i: int| 0 <= i < tail.len() ==> #[trigger] tail[i] == syms[i + 1]);
        assert(forall|i: int| 0 <= i < tf.len() ==> #[trigger] tf[i] == flags[i + 1]);
        lemma_fuse_runs_head(tail, tf, unk, b - 1);
        assert(out[0] == (Symbol { id: unk, start: syms[0].start, end: rest[0].end }));
        assert(rest[0].end == tail[b - 2].end && tail[b - 2] == syms[b - 1]);
    }
}

/// Each maximal flagged run — positions `a .. b`, flagged throughout, with
/// unflagged or absent neighbours — fuses into a single symbol carrying
/// the fallback id and spanning exactly the run; that symbol stands in the
/// fused output.
pub proof fn lemma_fuse_runs_maximal_run(
    syms: Seq<Symbol>,
    flags: Seq<bool>,
    unk: usize,
    wlen: int,
    vlen: int,
    a: int,
    b: int,
)
    requires
        syms_chain(syms, wlen, vlen),
        unk < vlen,
        flags.len() == syms.len(),
        0 <= a < b <= syms.len(),
        forall|i: int| a <= i < b ==> flags[i],
        a == 0 || !flags[a - 1],
        b == syms.len() || !flags[b],
        forall|i: int| a <= i < b ==> (#[trigger] syms[i]).id == unk,
    ensures
        exists|j: int|
            0 <= j < fuse_runs(syms, flags, unk).len() && #[trigger] fuse_runs(syms, flags, unk)[j]
                == (Symbol { id: unk, start: syms[a].start, end: syms[b - 1].end }),
    decreases syms.len(),
{
    let tail = syms.drop_first();
    let tf = flags.drop_first();
    let rest = fuse_runs(tail, tf, unk);
    let out = fuse_runs(syms, flags, unk);
    let runsym = Symbol { id: unk, start: syms[a].start, end: syms[b - 1].end };
    if a == 0 {
        lemma_fuse_runs_head(syms, flags, unk, b);
        assert(out[0] == runsym);
    } else {
        assert(forall|i: int| 0 <= i < tail.len() ==> #[trigger] tail[i] == syms[i + 1]);
        assert(forall|i: int| 0 <= i < tf.len() ==> #[trigger] tf[i] == flags[i + 1]);
        assert(syms_chain(tail, wlen, vlen));
        lemma_fuse_runs_maximal_run(tail, tf, unk, wlen, vlen, a - 1, b - 1);
        let j0 = choose|j: int|
            0 <= j < rest.len() && #[trigger] rest[j] == (Symbol {
                id: unk,
                start: tail[a - 1].start,
                end: tail[b - 2].end,
            });
        assert(tail[a - 1] == syms[a] && tail[b - 2] == syms[b - 1]);
        assert(rest[j0] == runsym);
        if flags[0] && syms.len() > 1 && flags[1] {
            assert(a >= 2);
            lemma_fuse_runs_chain(tail, tf, unk, wlen, vlen);
            assert(rest[0].start == tail[0].start && tail[0] == syms[1]);
            lemma_chain_starts(syms, wlen, vlen, 1, a);
            assert(rest[0].start != runsym.start);
            assert(j0 >= 1);
            assert(out[j0] == rest.drop_first()[j0 - 1]);
            assert(rest.drop_first()[j0 - 1] == rest[j0]);
            assert(out[j0] == runsym);
        } else {
            assert(out[j0 + 1] == rest[j0]);
            assert(out[j0 + 1] == runsym);
        }
    }
}

/// Fusing fallback runs preserves the contiguous chain, never grows the
/// sequence, and keeps its first start and last end.
pub proof fn lemma_fuse_runs_chain(
    syms: Seq<Symbol>,
    flags: Seq<bool>,
    unk: usize,
    wlen: int,
    vlen: int,
)
    requires
        syms_chain(syms, wlen, vlen),
        unk < vlen,
    ensures
        syms_chain(fuse_runs(syms, flags, unk), wlen, vlen),
        fuse_runs(syms, flags, unk).len() <= syms.len(),
        syms.len() > 0 ==> fuse_runs(syms, flags, unk).len() > 0,
        syms.len() > 0 ==> fuse_runs(syms, flags, unk)[0].start == syms[0].start && fuse_runs(
            syms,
            flags,
            unk,
        )[fuse_runs(syms, flags, unk).len() - 1].end == syms[syms.len() - 1].end,
        syms.len() == 0 ==> fuse_runs(syms, flags, unk) == syms,
    decreases syms.len(),
{
    if syms.len() > 0 {
        let tail = syms.drop_first();
        assert(forall|i: int| 0 <= i < tail.len() ==> #[trigger] tail[i] == syms[i + 1]);
        lemma_fuse_runs_chain(tail, flags.drop_first(), unk, wlen, vlen);
        let rest = fuse_runs(tail, flags.drop_first(), unk);
        let res = fuse_runs(syms, flags, unk);
        if flags[0] && syms.len() > 1 && flags[1] {
            let comb = Symbol { id: unk, start: syms[0].start, end: rest[0].end };
            assert(res == seq![comb] + rest.drop_first());
            assert(rest[0].start == syms[1].start);
            assert(syms[0].end == syms[1].start);
            assert(comb.start < comb.end <= wlen);
            assert forall|i: int| 0 <= i < res.len() - 1 implies (#[trigger] res[i]).end == res[i
                + 1].start by {
                if i == 0 {
                    assert(res[1] == rest.drop_first()[0]);
                    assert(rest.drop_first()[0] == rest[1]);
                    assert(rest[0].end == rest[1].start);
                } else {
                    assert(res[i] == rest[i]);
                    assert(res[i + 1] == rest[i + 1]);
                }
            }
            assert forall|i: int| 0 <= i < res.len() implies (#[trigger] res[i]).id < vlen
                && res[i].start < res[i].end <= wlen by {
                if i > 0 {
                    assert(res[i] == rest[i]);
                }
            }
            assert(res[res.len() - 1].end == rest[rest.len() - 1].end);
        } else {
            assert(res == seq![syms[0]] + rest);
            assert forall|i: int| 0 <= i < res.len() - 1 implies (#[trigger] res[i]).end == res[i
                + 1].start by {
                if i == 0 {
                    assert(res[1] == rest[0]);
                    assert(rest[0].start == tail[0].start);
                    assert(tail[0] == syms[1]);
                    assert(syms[0].end == syms[1].start);
                } else {
                    assert(res[i] == rest[i - 1]);
                    assert(res[i + 1] == rest[i]);
                }
            }
            assert forall|i: int| 0 <= i < res.len() implies (#[trigger] res[i]).id < vlen
                && res[i].start < res[i].end <= wlen by {
                if i > 0 {
                    assert(res[i] == rest[i - 1]);
                }
            }
            if tail.len() > 0 {
                assert(res[res.len() - 1] == rest[rest.len() - 1]);
            }
        }
    }
}

/// The token sequence a resolvable word tokenizes to, as symbols: the
/// character-level split, fallback fusion when configured, then all merges
/// by rank.  This is the whole deterministic pipeline; `tokenize` with
/// dropout 0 returns exactly this.
pub open spec fn resolved_syms(
    word: Seq<char>,
    vocab: Seq<Seq<char>>,
    rules: Seq<MergeRule>,
    prefix: Seq<char>,
    suffix: Seq<char>,
    unk: Option<usize>,
    fuse: bool,
) -> Seq<Symbol> {
    let init = init_syms(word, vocab, prefix, suffix, unk);
    let fused = if fuse && unk is Some {
        fuse_runs(init, init_flags(word, vocab, prefix, suffix), unk->Some_0)
    } else {
        init
    };
    apply_merges(rules, fused)
}

/// One output token: the token string, its id, and the character range of
/// the word it covers.
#[derive(Clone, Debug)]
pub struct Token {
    pub id: usize,
    pub value: String,
    pub start: usize,
    pub end: usize,
}

/// `t` reports symbol `s` of the word: same id and range, and its string is
/// the vocabulary entry for that id.
pub open spec fn token_matches(t: Token, s: Symbol, vocab: Seq<Seq<char>>) -> bool {
    &&& t.id == s.id
    &&& t.start == s.start
    &&& t.end == s.end
    &&& s.id < vocab.len()
    &&& t.value@ == vocab[s.id as int]
}

/// `toks` reports exactly the symbol sequence `syms`.
pub open spec fn tokens_correspond(toks: Seq<Token>, syms: Seq<Symbol>, vocab: Seq<Seq<char>>) -> bool {
    &&& toks.len() == syms.len()
    &&& forall|k: int| 0 <= k < toks.len() ==> token_matches(#[trigger] toks[k], syms[k], vocab)
}

/// Structural soundness of an output token sequence: valid ids, each token
/// string is the vocabulary entry of its id, ranges are non-empty,
/// contiguous, and span the whole word.
pub open spec fn tokens_frame(toks: Seq<Token>, wlen: int, vocab: Seq<Seq<char>>) -> bool {
    &&& forall|k: int|
        0 <= k < toks.len() ==> (#[trigger] toks[k]).id < vocab.len() && toks[k].start
            < toks[k].end <= wlen && toks[k].value@ == vocab[toks[k].id as int]
    &&& forall|k: int| 0 <= k < toks.len() - 1 ==> (#[trigger] toks[k]).end == toks[k + 1].start
    &&& toks.len() > 0 ==> toks[0].start == 0 && toks[toks.len() - 1].end == wlen
    &&& wlen > 0 ==> toks.len() > 0
}

/// Every token's string is exactly the word slice it covers (no affixes, no
/// fallback substitution).
pub open spec fn tokens_match_word(toks: Seq<Token>, word: Seq<char>) -> bool {
    forall|k: int|
        0 <= k < toks.len() ==> (#[trigger] toks[k]).end <= word.len() && toks[k].value@
            == word.subrange(toks[k].start as int, toks[k].end as int)
}

/// The concatenation of the token strings of `toks`, in order.
pub open spec fn concat_values(toks: Seq<Token>) -> Seq<char>
    decreases toks.len(),
{
    if toks.len() == 0 {
        Seq::<char>::empty()
    } else {
        concat_values(toks.drop_last()) + toks.last().value@
    }
}

/// Reconstruction: when every token string is the word slice it covers and
/// the ranges tile the word, concatenating the token strings reproduces the
/// word exactly.  This is stated for affix-free configurations by design:
/// a merged token is the plain concatenation of its constituents (the
/// merge-table invariant), so once affixed tokens merge, an interior affix
/// survives edge stripping and no positional strip can recover the word.
pub proof fn lemma_reconstruction(toks: Seq<Token>, word: Seq<char>, vocab: Seq<Seq<char>>)
    requires
        tokens_frame(toks, word.len() as int, vocab),
        tokens_match_word(toks, word),
    ensures
        concat_values(toks) == word,
{
    lemma_concat_prefix(toks, word, toks.len() as int);
    assert(toks.take(toks.len() as int) =~= toks);
    if toks.len() == 0 {
        assert(concat_values(toks) =~= word);
    } else {
        assert(word.subrange(0, toks[toks.len() - 1].end as int) =~= word);
    }
}

/// The concatenation of the first `i` token strings is the word prefix up
/// to the end of token `i - 1`.
proof fn lemma_concat_prefix(toks: Seq<Token>, word: Seq<char>, i: int)
    requires
        0 <= i <= toks.len(),
        forall|k: int| 0 <= k < toks.len() - 1 ==> (#[trigger] toks[k]).end == toks[k + 1].start,
        forall|k: int| 0 <= k < toks.len() ==> (#[trigger] toks[k]).start <= toks[k].end,
        toks.len() > 0 ==> toks[0].start == 0,
        tokens_match_word(toks, word),
    ensures
        concat_values(toks.take(i)) == word.subrange(
            0,
            if i == 0 {
                0
            } else {
                toks[i - 1].end as int
            },
        ),
    decreases i,
{
    if i == 0 {
        assert(concat_values(toks.take(0)) =~= word.subrange(0, 0));
    } else {
        lemma_concat_prefix(toks, word, i - 1);
        let pre = toks.take(i);
        assert(pre.drop_last() =~= toks.take(i - 1));
        assert(pre.last() == toks[i - 1]);
        let lo = if i == 1 {
            0
        } else {
            toks[i - 2].end as int
        };
        assert(toks[i - 1].start as int == lo);
        assert(word.subrange(0, lo) + word.subrange(lo, toks[i - 1].end as int) =~= word.subrange(
            0,
            toks[i - 1].end as int,
        ));
    }
}

/// Splits `word` into its initial symbol sequence: one symbol per
/// character, rendered with the affixes and resolved through the
/// vocabulary, unknown characters falling back to `unk`.  Fails on the
/// first unknown character when no fallback is configured.
fn split_word(
    vocab: &Vocabulary,
    word: &str,
    prefix: &String,
    suffix: &String,
    unk: Option<usize>,
) -> (r: Result<(Vec<Symbol>, Vec<bool>), BpeError>)
    requires
        vocab.wf(),
        unk matches Some(u) ==> u < vocab@.len(),
    ensures
        match r {
            Ok(sf) => {
                &&& word_resolvable(word@, vocab@, prefix@, suffix@, unk)
                &&& sf.0@ == init_syms(word@, vocab@, prefix@, suffix@, unk)
                &&& sf.1@ == init_flags(word@, vocab@, prefix@, suffix@)
            },
            Err(e) => {
                &&& unk is None
                &&& first_unknown(word@, vocab@, prefix@, suffix@) matches Some(p) && e
                    == (BpeError::UnknownCharacter { position: p as usize })
            },
        },
{
    let n = word.unicode_len();
    let mut syms: Vec<Symbol> = Vec::new();
    let mut flags: Vec<bool> = Vec::new();
    let ghost target = init_syms(word@, vocab@, prefix@, suffix@, unk);
    let ghost ftarget = init_flags(word@, vocab@, prefix@, suffix@);
    for i in 0..n
        invariant
            n == word@.len(),
            vocab.wf(),
            unk matches Some(u) ==> u < vocab@.len(),
            target == init_syms(word@, vocab@, prefix@, suffix@, unk),
            ftarget == init_flags(word@, vocab@, prefix@, suffix@),
            syms@.len() == i,
            flags@.len() == i,
            forall|k: int| 0 <= k < i ==> #[trigger] syms@[k] == target[k],
            forall|k: int| 0 <= k < i ==> #[trigger] flags@[k] == ftarget[k],
            unk is None ==> first_unknown(word@, vocab@, prefix@, suffix@) == first_unknown_from(
                word@,
                vocab@,
                prefix@,
                suffix@,
                i as int,
            ),
    {
        let piece = word.substring_char(i, i + 1);
        let mut rendered = if i > 0 {
            prefix.clone()
        } else {
            String::new()
        };
        rendered.append(piece);
        if i + 1 == n {
            rendered.append(suffix.as_str());
        }
        assert(rendered@ == render_at(word@, i as int, prefix@, suffix@));
        let (id, fell_back) = match vocab.get_id(rendered.as_str()) {
            Some(found) => {
                proof {
                    lemma_token_index(vocab@, found as int, rendered@);
                    assert(has_token(vocab@, render_at(word@, i as int, prefix@, suffix@)));
                }
                (found, false)
            },
            None => {
                match unk {
                    Some(u) => (u, true),
                    None => {
                        return Err(BpeError::UnknownCharacter { position: i });
                    },
                }
            },
        };
        syms.push(Symbol { id, start: i, end: i + 1 });
        flags.push(fell_back);
        assert(syms@[i as int] == target[i as int]);
        assert(flags@[i as int] == ftarget[i as int]);
    }
    assert(syms@ =~= target);
    assert(flags@ =~= ftarget);
    Ok((syms, flags))
}

/// The initial split is a sound frame over the word, and when no affixes
/// are configured and every character is known, each initial symbol's token
/// is exactly its one-character slice.
proof fn lemma_init_syms_good(
    word: Seq<char>,
    vocab: Seq<Seq<char>>,
    prefix: Seq<char>,
    suffix: Seq<char>,
    unk: Option<usize>,
)
    requires
        word_resolvable(word, vocab, prefix, suffix, unk),
        unk matches Some(u) ==> u < vocab.len(),
        word.len() <= usize::MAX,
        vocab.len() <= usize::MAX,
    ensures
        syms_frame(init_syms(word, vocab, prefix, suffix, unk), word.len() as int, vocab.len() as int),
        (prefix.len() == 0 && suffix.len() == 0 && first_unknown(word, vocab, prefix, suffix)
            is None) ==> syms_match_word(init_syms(word, vocab, prefix, suffix, unk), word, vocab),
{
    let syms = init_syms(word, vocab, prefix, suffix, unk);
    lemma_first_unknown_all_known(word, vocab, prefix, suffix, 0);
    assert forall|i: int| 0 <= i < syms.len() implies (#[trigger] syms[i]).id < vocab.len()
        && syms[i].start < syms[i].end <= word.len() by {
        let t = render_at(word, i, prefix, suffix);
        if has_token(vocab, t) {
            let j = token_index(vocab, t);
            assert(0 <= j < vocab.len() && vocab[j] == t);
        } else {
            assert(first_unknown(word, vocab, prefix, suffix) is None ==> has_token(vocab, t));
            assert(unk is Some);
        }
    }
    if prefix.len() == 0 && suffix.len() == 0 && first_unknown(word, vocab, prefix, suffix)
        is None {
        assert forall|i: int| 0 <= i < syms.len() implies (#[trigger] syms[i]).id < vocab.len()
            && syms[i].end <= word.len() && vocab[syms[i].id as int] == word.subrange(
            syms[i].start as int,
            syms[i].end as int,
        ) by {
            let t = render_at(word, i, prefix, suffix);
            assert(has_token(vocab, t));
            assert(t =~= word.subrange(i, i + 1));
            let j = token_index(vocab, t);
            assert(0 <= j < vocab.len() && vocab[j] == t);
            assert(syms[i].id == j);
        }
    }
}

/// When `first_unknown_from` finds nothing, every rendered character at or
/// after `i` is in the vocabulary.
proof fn lemma_first_unknown_all_known(
    word: Seq<char>,
    vocab: Seq<Seq<char>>,
    prefix: Seq<char>,
    suffix: Seq<char>,
    i: int,
)
    requires
        0 <= i,
    ensures
        first_unknown_from(word, vocab, prefix, suffix, i) is None ==> forall|k: int|
            i <= k < word.len() ==> has_token(vocab, #[trigger] render_at(word, k, prefix, suffix)),
    decreases word.len() - i,
{
    if i < word.len() {
        lemma_first_unknown_all_known(word, vocab, prefix, suffix, i + 1);
    }
}

/// Collapses each run of adjacent fallback symbols (by their fallback
/// flags) into one symbol.
fn fuse_runs_exec(syms: &Vec<Symbol>, flags: &Vec<bool>, unk: usize) -> (r: Vec<Symbol>)
    requires
        flags@.len() == syms@.len(),
    ensures
        r@ == fuse_runs(syms@, flags@, unk),
{
    let n = syms.len();
    let mut out: Vec<Symbol> = Vec::new();
    let mut i = n;
    while i > 0
        invariant
            n == syms@.len() == flags@.len(),
            i <= n,
            out@ == fuse_runs(
                syms@.subrange(i as int, n as int),
                flags@.subrange(i as int, n as int),
                unk,
            ),
        decreases i,
    {
        i = i - 1;
        let s = syms[i];
        let ghost sub = syms@.subrange(i as int, n as int);
        let ghost fsub = flags@.subrange(i as int, n as int);
        assert(sub[0] == s && fsub[0] == flags@[i as int]);
        assert(sub.drop_first() =~= syms@.subrange(i + 1, n as int));
        assert(fsub.drop_first() =~= flags@.subrange(i + 1, n as int));
        if flags[i] && i + 1 < n && flags[i + 1] {
            assert(sub.len() > 1 && fsub[1] == flags@[i + 1]);
            assert(out@.len() > 0);
            let first = out[0];
            out[0] = Symbol { id: unk, start: s.start, end: first.end };
            assert(out@ =~= fuse_runs(sub, fsub, unk));
        } else {
            out.insert(0, s);
            assert(out@ =~= fuse_runs(sub, fsub, unk));
        }
    }
    assert(syms@.subrange(0, n as int) =~= syms@);
    assert(flags@.subrange(0, n as int) =~= flags@);
    out
}

/// Builds the output tokens for a symbol sequence, reading each token
/// string back from the vocabulary.
fn tokens_from_syms(vocab: &Vocabulary, syms: &Vec<Symbol>) -> (r: Vec<Token>)
    requires
        forall|k: int| 0 <= k < syms@.len() ==> (#[trigger] syms@[k]).id < vocab@.len(),
    ensures
        tokens_correspond(r@, syms@, vocab@),
{
    let n = syms.len();
    let mut out: Vec<Token> = Vec::new();
    for k in 0..n
        invariant
            n == syms@.len(),
            forall|j: int| 0 <= j < n ==> (#[trigger] syms@[j]).id < vocab@.len(),
            out@.len() == k,
            forall|j: int| 0 <= j < k ==> token_matches(#[trigger] out@[j], syms@[j], vocab@),
    {
        let s = syms[k];
        let value = match vocab.get_token(s.id) {
            Some(v) => v,
            None => {
                proof {
                    assert(false);
                }
                String::new()
            },
        };
        out.push(Token { id: s.id, value, start: s.start, end: s.end });
    }
    out
}

/// Tokens that correspond to a framed symbol sequence form a framed token
/// sequence, and inherit the match-the-word property.
proof fn lemma_tokens_good(toks: Seq<Token>, syms: Seq<Symbol>, word: Seq<char>, vocab: Seq<
    Seq<char>,
>)
    requires
        tokens_correspond(toks, syms, vocab),
        syms_frame(syms, word.len() as int, vocab.len() as int),
        word.len() > 0 ==> syms.len() > 0,
    ensures
        tokens_frame(toks, word.len() as int, vocab),
        syms_match_word(syms, word, vocab) ==> tokens_match_word(toks, word),
{
    assert forall|k: int| 0 <= k < toks.len() - 1 implies (#[trigger] toks[k]).end == toks[k
        + 1].start by {
        assert(token_matches(toks[k], syms[k], vocab));
        assert(token_matches(toks[k + 1], syms[k + 1], vocab));
        assert(syms[k].end == syms[k + 1].start);
    }
}

/// The full deterministic pipeline yields a sound frame over the word, and
/// (with no affixes, no unknown character, and no fallback fusion in play)
/// symbols that match their word slices exactly.
pub proof fn lemma_resolved_syms_good(
    word: Seq<char>,
    vocab: Seq<Seq<char>>,
    rules: Seq<MergeRule>,
    prefix: Seq<char>,
    suffix: Seq<char>,
    unk: Option<usize>,
    fuse: bool,
)
    requires
        tokens_unique(vocab),
        table_ok(rules, vocab),
        word_resolvable(word, vocab, prefix, suffix, unk),
        unk matches Some(u) ==> u < vocab.len(),
        word.len() <= usize::MAX,
        vocab.len() <= usize::MAX,
    ensures
        syms_frame(
            resolved_syms(word, vocab, rules, prefix, suffix, unk, fuse),
            word.len() as int,
            vocab.len() as int,
        ),
        word.len() > 0 ==> resolved_syms(word, vocab, rules, prefix, suffix, unk, fuse).len() > 0,
        word.len() == 0 ==> resolved_syms(word, vocab, rules, prefix, suffix, unk, fuse).len()
            == 0,
        (prefix.len() == 0 && suffix.len() == 0 && first_unknown(word, vocab, prefix, suffix)
            is None) ==> syms_match_word(
            resolved_syms(word, vocab, rules, prefix, suffix, unk, fuse),
            word,
            vocab,
        ),
{
    let init = init_syms(word, vocab, prefix, suffix, unk);
    let flags = init_flags(word, vocab, prefix, suffix);
    lemma_init_syms_good(word, vocab, prefix, suffix, unk);
    let fused = if fuse && unk is Some {
        fuse_runs(init, flags, unk->Some_0)
    } else {
        init
    };
    if fuse && unk is Some {
        lemma_fuse_runs_chain(init, flags, unk->Some_0, word.len() as int, vocab.len() as int);
        if first_unknown(word, vocab, prefix, suffix) is None {
            lemma_first_unknown_all_known(word, vocab, prefix, suffix, 0);
            assert forall|i: int| 0 <= i < init.len() implies !(#[trigger] flags[i]) by {
                assert(has_token(vocab, render_at(word, i, prefix, suffix)));
            }
            lemma_fuse_runs_unflagged(init, flags, unk->Some_0);
        }
    }
    assert(syms_frame(fused, word.len() as int, vocab.len() as int));
    lemma_apply_merges_good(rules, fused, word, vocab);
}

/// Unknown handling with a fallback configured: when no merge rule names
/// the fallback id and fusing is off, an unknown character resolves to
/// exactly the fallback symbol covering that one character, and it is
/// still there after every merge.
pub proof fn lemma_unknown_maps_to_fallback(
    word: Seq<char>,
    vocab: Seq<Seq<char>>,
    rules: Seq<MergeRule>,
    prefix: Seq<char>,
    suffix: Seq<char>,
    u: usize,
    i: int,
)
    requires
        0 <= i < word.len(),
        !has_token(vocab, render_at(word, i, prefix, suffix)),
        forall|r: int|
            0 <= r < rules.len() ==> (#[trigger] rules[r]).left != u && rules[r].right != u,
        word.len() <= usize::MAX,
    ensures
        exists|j: int|
            0 <= j < resolved_syms(word, vocab, rules, prefix, suffix, Some(u), false).len()
                && #[trigger] resolved_syms(word, vocab, rules, prefix, suffix, Some(u), false)[j]
                == (Symbol { id: u, start: i as usize, end: (i + 1) as usize }),
{
    let init = init_syms(word, vocab, prefix, suffix, Some(u));
    assert(init[i] == (Symbol { id: u, start: i as usize, end: (i + 1) as usize }));
    crate::word::lemma_unmergeable_symbol_survives(rules, init, i);
    assert(resolved_syms(word, vocab, rules, prefix, suffix, Some(u), false) == apply_merges(
        rules,
        init,
    ));
    let j0 = choose|j: int|
        0 <= j < apply_merges(rules, init).len() && #[trigger] apply_merges(rules, init)[j]
            == init[i];
    assert(resolved_syms(word, vocab, rules, prefix, suffix, Some(u), false)[j0] == (Symbol {
        id: u,
        start: i as usize,
        end: (i + 1) as usize,
    }));
}

/// Unknown fusing: with fusing on, each maximal run of adjacent unknown
/// characters yields one fallback symbol spanning exactly the run, and —
/// when no merge rule names the fallback id — that symbol is still in the
/// final output, so the run appears as a single fallback token, not one
/// per character.
#[verifier::rlimit(60)]
pub proof fn lemma_unknown_run_fuses(
    word: Seq<char>,
    vocab: Seq<Seq<char>>,
    rules: Seq<MergeRule>,
    prefix: Seq<char>,
    suffix: Seq<char>,
    u: usize,
    a: int,
    b: int,
)
    requires
        u < vocab.len(),
        0 <= a < b <= word.len(),
        forall|i: int|
            a <= i < b ==> !has_token(vocab, #[trigger] render_at(word, i, prefix, suffix)),
        a == 0 || has_token(vocab, render_at(word, a - 1, prefix, suffix)),
        b == word.len() || has_token(vocab, render_at(word, b, prefix, suffix)),
        forall|r: int|
            0 <= r < rules.len() ==> (#[trigger] rules[r]).left != u && rules[r].right != u,
        word.len() <= usize::MAX,
        vocab.len() <= usize::MAX,
    ensures
        exists|j: int|
            0 <= j < resolved_syms(word, vocab, rules, prefix, suffix, Some(u), true).len()
                && #[trigger] resolved_syms(word, vocab, rules, prefix, suffix, Some(u), true)[j]
                == (Symbol { id: u, start: a as usize, end: b as usize }),
{
    let init = init_syms(word, vocab, prefix, suffix, Some(u));
    let flags = init_flags(word, vocab, prefix, suffix);
    lemma_init_syms_good(word, vocab, prefix, suffix, Some(u));
    assert(syms_chain(init, word.len() as int, vocab.len() as int));
    assert(forall|i: int| a <= i < b ==> #[trigger] flags[i]);
    assert(a == 0 || !flags[a - 1]);
    assert(b == init.len() || !flags[b]);
    assert(forall|i: int| a <= i < b ==> (#[trigger] init[i]).id == u);
    lemma_fuse_runs_maximal_run(init, flags, u, word.len() as int, vocab.len() as int, a, b);
    let fused = fuse_runs(init, flags, u);
    let runsym = Symbol { id: u, start: a as usize, end: b as usize };
    assert(init[a].start == a as usize && init[b - 1].end == b as usize);
    let k = choose|j: int|
        0 <= j < fused.len() && #[trigger] fused[j] == (Symbol {
            id: u,
            start: init[a].start,
            end: init[b - 1].end,
        });
    assert(fused[k] == runsym);
    crate::word::lemma_unmergeable_symbol_survives(rules, fused, k);
    assert(resolved_syms(word, vocab, rules, prefix, suffix, Some(u), true) == apply_merges(
        rules,
        fused,
    ));
    let j0 = choose|j: int|
        0 <= j < apply_merges(rules, fused).len() && #[trigger] apply_merges(rules, fused)[j]
            == fused[k];
    assert(resolved_syms(word, vocab, rules, prefix, suffix, Some(u), true)[j0] == runsym);
}

/// The vocabulary contents a model is built over: the supplied vocabulary,
/// or empty when none was supplied.
pub open spec fn vocab_or_empty(vocab: Option<Vocabulary>) -> Seq<Seq<char>> {
    match vocab {
        Some(v) => v@,
        None => Seq::<Seq<char>>::empty(),
    }
}

/// One encoding-cache entry: a word and the symbol sequence it resolved to.
struct CacheEntry {
    key: String,
    syms: Vec<Symbol>,
}

/// The BPE model: immutable vocabulary, merge table and configuration,
/// plus the bounded encoding cache and the dropout random state.
pub struct BpeModel {
    vocab: Vocabulary,
    merges: MergeTable,
    prefix: String,
    suffix: String,
    unk_id: Option<usize>,
    fuse_unk: bool,
    dropout: u32,
    cache_capacity: usize,
    cache: Vec<CacheEntry>,
    rng: u64,
}

impl BpeModel {
    /// The vocabulary contents, indexed by id.
    pub closed spec fn vocab_view(&self) -> Seq<Seq<char>> {
        self.vocab@
    }

    /// The merge rules, indexed by rank.
    pub closed spec fn merges_view(&self) -> Seq<MergeRule> {
        self.merges@
    }

    /// The continuing-subword prefix (empty when not configured).
    pub closed spec fn prefix_view(&self) -> Seq<char> {
        self.prefix@
    }

    /// The end-of-word suffix (empty when not configured).
    pub closed spec fn suffix_view(&self) -> Seq<char> {
        self.suffix@
    }

    /// The unknown-token fallback id, when configured.
    pub closed spec fn unk_view(&self) -> Option<usize> {
        self.unk_id
    }

    /// Whether adjacent fallback tokens are fused.
    pub closed spec fn fuse_view(&self) -> bool {
        self.fuse_unk
    }

    /// The dropout numerator (out of `DROPOUT_SCALE`; 0 disables dropout).
    pub closed spec fn dropout_view(&self) -> u32 {
        self.dropout
    }

    /// The encoding-cache capacity (0 disables caching).
    pub closed spec fn capacity_view(&self) -> usize {
        self.cache_capacity
    }

    /// The symbol sequence this model's configuration resolves `word` to
    /// (dropout disabled).
    pub open spec fn spec_tokenize(&self, word: Seq<char>) -> Seq<Symbol> {
        resolved_syms(
            word,
            self.vocab_view(),
            self.merges_view(),
            self.prefix_view(),
            self.suffix_view(),
            self.unk_view(),
            self.fuse_view(),
        )
    }

    /// `word` resolves under this model's configuration.
    pub open spec fn spec_resolvable(&self, word: Seq<char>) -> bool {
        word_resolvable(
            word,
            self.vocab_view(),
            self.prefix_view(),
            self.suffix_view(),
            self.unk_view(),
        )
    }

    /// The two models tokenize identically: same vocabulary, merges,
    /// affixes and unknown handling.  Cache capacity, dropout and random
    /// state are deliberately not part of this.
    pub open spec fn same_semantics(&self, other: &BpeModel) -> bool {
        &&& self.vocab_view() == other.vocab_view()
        &&& self.merges_view() == other.merges_view()
        &&& self.prefix_view() == other.prefix_view()
        &&& self.suffix_view() == other.suffix_view()
        &&& self.unk_view() == other.unk_view()
        &&& self.fuse_view() == other.fuse_view()
    }

    /// All configuration, including cache capacity and dropout, agrees.
    pub open spec fn same_config(&self, other: &BpeModel) -> bool {
        &&& self.same_semantics(other)
        &&& self.dropout_view() == other.dropout_view()
        &&& self.capacity_view() == other.capacity_view()
    }

    /// A cache entry is coherent: it records exactly what the deterministic
    /// pipeline yields for its key, over valid ids.
    spec fn entry_ok(&self, e: CacheEntry) -> bool {
        &&& self.spec_resolvable(e.key@)
        &&& e.syms@ == self.spec_tokenize(e.key@)
        &&& forall|k: int|
            0 <= k < e.syms@.len() ==> (#[trigger] e.syms@[k]).id < self.vocab_view().len()
    }

    /// Well-formedness: bijective vocabulary, merge table coherent with it,
    /// valid fallback id, valid dropout, and a bounded, coherent cache.
    pub closed spec fn wf(&self) -> bool {
        &&& self.vocab.wf()
        &&& table_ok(self.merges@, self.vocab@)
        &&& (self.unk_id matches Some(u) ==> u < self.vocab@.len())
        &&& self.dropout < DROPOUT_SCALE
        &&& self.cache@.len() <= self.cache_capacity
        &&& forall|i: int| 0 <= i < self.cache@.len() ==> self.entry_ok(#[trigger] self.cache@[i])
    }

    /// Builds a model.  The vocabulary and merge list must be supplied
    /// together or not at all; the merge list is validated against the
    /// vocabulary; the unknown token, when given, must be a vocabulary
    /// entry; the dropout numerator must lie below `DROPOUT_SCALE`.
    /// Omitted options take their defaults: empty affixes, no fallback, no
    /// fusing, dropout 0, `DEFAULT_CACHE_CAPACITY`.
    pub fn new(
        vocab: Option<Vocabulary>,
        merges: Option<Vec<MergePair>>,
        cache_capacity: Option<usize>,
        dropout: Option<u32>,
        unk_token: Option<String>,
        continuing_subword_prefix: Option<String>,
        end_of_word_suffix: Option<String>,
        fuse_unk: Option<bool>,
    ) -> (r: Result<BpeModel, BpeError>)
        requires
            vocab matches Some(v) ==> v.wf(),
        ensures
            ({
                let vv = match vocab {
                    Some(v) => v@,
                    None => Seq::<Seq<char>>::empty(),
                };
                match r {
                    Ok(m) => {
                        &&& m.wf()
                        &&& m.vocab_view() == vv
                        &&& (match merges {
                            Some(ps) => m.merges_view().len() == ps@.len() && forall|k: int|
                                0 <= k < ps@.len() ==> #[trigger] crate::merges::pair_resolved(
                                    m.merges_view()[k],
                                    ps@[k],
                                    vv,
                                ),
                            None => m.merges_view().len() == 0,
                        })
                        &&& (match unk_token {
                            Some(t) => m.unk_view() matches Some(u) && u < vv.len() && vv[
                                u as int
                            ] == t@,
                            None => m.unk_view() is None,
                        })
                        &&& m.prefix_view() == (match continuing_subword_prefix {
                            Some(p) => p@,
                            None => Seq::<char>::empty(),
                        })
                        &&& m.suffix_view() == (match end_of_word_suffix {
                            Some(s) => s@,
                            None => Seq::<char>::empty(),
                        })
                        &&& m.fuse_view() == (match fuse_unk {
                            Some(b) => b,
                            None => false,
                        })
                        &&& m.dropout_view() == (match dropout {
                            Some(d) => d,
                            None => 0,
                        })
                        &&& m.capacity_view() == (match cache_capacity {
                            Some(c) => c,
                            None => DEFAULT_CACHE_CAPACITY,
                        })
                    },
                    Err(e) => {
                        ||| (e == BpeError::VocabMergesMismatch && !(vocab is Some <==> merges
                            is Some))
                        ||| (e == BpeError::InvalidDropout && (vocab is Some <==> merges is Some)
                            && (dropout matches Some(d) && d >= DROPOUT_SCALE))
                        ||| ((e matches BpeError::MergeTokenMissing { rank: _ }) && (vocab
                            is Some <==> merges is Some) && (dropout matches Some(d) ==> d
                            < DROPOUT_SCALE) && (merges matches Some(ps) && exists|k: int|
                            0 <= k < ps@.len() && !crate::merges::pair_in_vocab(
                                #[trigger] ps@[k],
                                vv,
                            )))
                        ||| (e == BpeError::UnkTokenAbsent && (vocab is Some <==> merges is Some)
                            && (dropout matches Some(d) ==> d < DROPOUT_SCALE) && (merges
                            matches Some(ps) ==> forall|k: int|
                            0 <= k < ps@.len() ==> #[trigger] crate::merges::pair_in_vocab(
                                ps@[k],
                                vv,
                            )) && (unk_token matches Some(t) && !has_token(vv, t@)))
                    },
                }
            }),
            (r is Err) <==> ({
                ||| !(vocab is Some <==> merges is Some)
                ||| (dropout matches Some(d) && d >= DROPOUT_SCALE)
                ||| (merges matches Some(ps) && exists|k: int|
                    0 <= k < ps@.len() && !crate::merges::pair_in_vocab(
                        #[trigger] ps@[k],
                        vocab_or_empty(vocab),
                    ))
                ||| (unk_token matches Some(t) && !has_token(vocab_or_empty(vocab), t@))
            }),
    {
        if !(vocab.is_some() == merges.is_some()) {
            return Err(BpeError::VocabMergesMismatch);
        }
        let d = match dropout {
            Some(d) => d,
            None => 0,
        };
        if d >= DROPOUT_SCALE {
            return Err(BpeError::InvalidDropout);
        }
        let v = match vocab {
            Some(v) => v,
            None => Vocabulary::new(),
        };
        let table = match merges {
            Some(ps) => match MergeTable::from_pairs(&ps, &v) {
                Ok(t) => t,
                Err(e) => {
                    proof {
                        let k0 = choose|k: int|
                            0 <= k < ps@.len() && !crate::merges::pair_in_vocab(
                                #[trigger] ps@[k],
                                v@,
                            );
                        assert(0 <= k0 < ps@.len() && !crate::merges::pair_in_vocab(
                            ps@[k0],
                            v@,
                        ));
                        assert(!crate::merges::pair_in_vocab(
                            merges->Some_0@[k0],
                            vocab_or_empty(vocab),
                        ));
                        assert(exists|k: int|
                            0 <= k < merges->Some_0@.len() && !crate::merges::pair_in_vocab(
                                #[trigger] merges->Some_0@[k],
                                vocab_or_empty(vocab),
                            ));
                    }
                    return Err(e);
                },
            },
            None => MergeTable::new(),
        };
        let unk_id = match unk_token {
            Some(t) => match v.get_id(t.as_str()) {
                Some(u) => Some(u),
                None => {
                    return Err(BpeError::UnkTokenAbsent);
                },
            },
            None => None,
        };
        let prefix = match continuing_subword_prefix {
            Some(p) => p,
            None => String::new(),
        };
        let suffix = match end_of_word_suffix {
            Some(s) => s,
            None => String::new(),
        };
        let fuse = match fuse_unk {
            Some(b) => b,
            None => false,
        };
        let capacity = match cache_capacity {
            Some(c) => c,
            None => DEFAULT_CACHE_CAPACITY,
        };
        Ok(
            BpeModel {
                vocab: v,
                merges: table,
                prefix,
                suffix,
                unk_id,
                fuse_unk: fuse,
                dropout: d,
                cache_capacity: capacity,
                cache: Vec::new(),
                rng: 0x9E3779B97F4A7C15,
            },
        )
    }

    /// The unknown-token string currently configured, if any.
    pub fn get_unk_token(&self) -> (r: Option<String>)
        requires
            self.wf(),
        ensures
            match r {
                Some(s) => self.unk_view() matches Some(u) && s@ == self.vocab_view()[u as int],
                None => self.unk_view() is None,
            },
    {
        match self.unk_id {
            Some(u) => self.vocab.get_token(u),
            None => {
                None
            },
        }
    }

    /// Turns `word` into its token sequence.  With dropout 0 the result is
    /// exactly the deterministic pipeline `spec_tokenize` — a pure function
    /// of the configuration and the word, whatever the cache holds.  With
    /// dropout on, candidate merges are skipped at random, but the result
    /// is still a sound tiling of the word.  Fails exactly on a word with
    /// an unknown character when no fallback is configured.
    pub fn tokenize(&mut self, word: &str) -> (r: Result<Vec<Token>, BpeError>)
        requires
            old(self).wf(),
        ensures
            final(self).wf(),
            final(self).same_config(old(self)),
            match r {
                Ok(toks) => {
                    &&& old(self).spec_resolvable(word@)
                    &&& tokens_frame(toks@, word@.len() as int, old(self).vocab_view())
                    &&& (old(self).prefix_view().len() == 0 && old(self).suffix_view().len() == 0
                        && first_unknown(
                        word@,
                        old(self).vocab_view(),
                        old(self).prefix_view(),
                        old(self).suffix_view(),
                    ) is None) ==> tokens_match_word(toks@, word@)
                    &&& (old(self).dropout_view() == 0 ==> tokens_correspond(
                        toks@,
                        old(self).spec_tokenize(word@),
                        old(self).vocab_view(),
                    ))
                },
                Err(e) => {
                    &&& !old(self).spec_resolvable(word@)
                    &&& first_unknown(
                        word@,
                        old(self).vocab_view(),
                        old(self).prefix_view(),
                        old(self).suffix_view(),
                    ) matches Some(p) && e == (BpeError::UnknownCharacter { position: p as usize })
                },
            },
    {
        let key = String::from_str(word);
        let wlen_bound = word.unicode_len();
        let vlen_bound = self.vocab.len();
        assert(word@.len() == wlen_bound && self.vocab@.len() == vlen_bound);
        if self.dropout == 0 && self.cache_capacity > 0 {
            let clen = self.cache.len();
            let mut ci: usize = 0;
            while ci < clen
                invariant
                    self.wf(),
                    clen == self.cache@.len(),
                    ci <= clen,
                    key@ == word@,
                    word@.len() <= usize::MAX,
                    self.vocab@.len() <= usize::MAX,
                decreases clen - ci,
            {
                if self.cache[ci].key.eq(&key) {
                    let entry_syms = &self.cache[ci].syms;
                    proof {
                        assert(self.entry_ok(self.cache@[ci as int]));
                    }
                    let toks = tokens_from_syms(&self.vocab, entry_syms);
                    proof {
                        lemma_resolved_syms_good(
                            word@,
                            self.vocab@,
                            self.merges@,
                            self.prefix@,
                            self.suffix@,
                            self.unk_id,
                            self.fuse_unk,
                        );
                        lemma_tokens_good(toks@, entry_syms@, word@, self.vocab@);
                    }
                    return Ok(toks);
                }
                ci = ci + 1;
            }
        }
        let (syms0, fb_flags) = match split_word(
            &self.vocab,
            word,
            &self.prefix,
            &self.suffix,
            self.unk_id,
        ) {
            Ok(sf) => sf,
            Err(e) => {
                return Err(e);
            },
        };
        let ghost init = syms0@;
        let ghost iflags = fb_flags@;
        let fused = match self.unk_id {
            Some(u) => if self.fuse_unk {
                fuse_runs_exec(&syms0, &fb_flags, u)
            } else {
                syms0
            },
            None => syms0,
        };
        proof {
            lemma_init_syms_good(word@, self.vocab@, self.prefix@, self.suffix@, self.unk_id);
            if self.fuse_unk && self.unk_id is Some {
                lemma_fuse_runs_chain(
                    init,
                    iflags,
                    self.unk_id->Some_0,
                    word@.len() as int,
                    self.vocab@.len() as int,
                );
            }
            if self.prefix@.len() == 0 && self.suffix@.len() == 0 && first_unknown(
                word@,
                self.vocab@,
                self.prefix@,
                self.suffix@,
            ) is None && self.fuse_unk && self.unk_id is Some {
                lemma_first_unknown_all_known(word@, self.vocab@, self.prefix@, self.suffix@, 0);
                assert forall|i: int| 0 <= i < init.len() implies !(#[trigger] iflags[i]) by {
                    assert(has_token(
                        self.vocab@,
                        render_at(word@, i, self.prefix@, self.suffix@),
                    ));
                }
                lemma_fuse_runs_unflagged(init, iflags, self.unk_id->Some_0);
                assert(fused@ == init);
            }
            assert(syms_frame(fused@, word@.len() as int, self.vocab@.len() as int));
            assert(word@.len() > 0 ==> fused@.len() > 0);
            lemma_apply_merges_good(self.merges@, fused@, word@, self.vocab@);
        }
        if self.dropout == 0 {
            let mut ms = fused;
            merge_word(&self.merges, &mut ms);
            assert(ms@ == self.spec_tokenize(word@));
            let toks = tokens_from_syms(&self.vocab, &ms);
            proof {
                lemma_tokens_good(toks@, ms@, word@, self.vocab@);
            }
            if self.cache_capacity > 0 {
                if self.cache.len() >= self.cache_capacity {
                    self.cache.clear();
                }
                self.cache.push(CacheEntry { key, syms: ms });
            }
            Ok(toks)
        } else {
            let mut ms = fused;
            let mut rng = self.rng;
            merge_word_dropout(
                &self.merges,
                &mut ms,
                &mut rng,
                self.dropout,
                Ghost(word@),
                Ghost(self.vocab@),
            );
            self.rng = rng;
            let toks = tokens_from_syms(&self.vocab, &ms);
            proof {
                lemma_tokens_good(toks@, ms@, word@, self.vocab@);
            }
            Ok(toks)
        }
    }
}

/// Determinism: with dropout 0, `tokenize` is a pure function of the model
/// configuration and the word.  Any two results that report the same
/// resolved symbol sequence — as `tokenize` ensures for a fixed
/// configuration, on every call and whatever the cache holds — agree in
/// every token: same ids, strings and offsets.
pub proof fn lemma_tokenize_deterministic(
    toks1: Seq<Token>,
    toks2: Seq<Token>,
    syms: Seq<Symbol>,
    vocab: Seq<Seq<char>>,
)
    requires
        tokens_correspond(toks1, syms, vocab),
        tokens_correspond(toks2, syms, vocab),
    ensures
        toks1.len() == toks2.len(),
        forall|k: int|
            0 <= k < toks1.len() ==> (#[trigger] toks1[k]).id == toks2[k].id && toks1[k].value@
                == toks2[k].value@ && toks1[k].start == toks2[k].start && toks1[k].end
                == toks2[k].end,
{
    assert forall|k: int|
        0 <= k < toks1.len() implies (#[trigger] toks1[k]).id == toks2[k].id && toks1[k].value@
        == toks2[k].value@ && toks1[k].start == toks2[k].start && toks1[k].end == toks2[k].end by {
        assert(token_matches(toks1[k], syms[k], vocab));
        assert(token_matches(toks2[k], syms[k], vocab));
    }
}

/// Cache transparency: what a word resolves to depends only on the
/// semantic configuration.  Two models that agree on vocabulary, merges,
/// affixes and unknown handling — whatever their cache capacities, cache
/// contents, or dropout settings — resolve every word identically, so
/// disabling the cache (capacity 0) cannot change any result.
pub proof fn lemma_cache_transparent(m1: &BpeModel, m2: &BpeModel, word: Seq<char>)
    requires
        m1.same_semantics(m2),
    ensures
        m1.spec_tokenize(word) == m2.spec_tokenize(word),
        m1.spec_resolvable(word) == m2.spec_resolvable(word),
{
}

/// The token string stripped of the affixes its position carries: the
/// continuing-subword prefix when not word-initial, the end-of-word suffix
/// when word-final (each only when actually present).
pub open spec fn strip_token(
    t: Seq<char>,
    is_first: bool,
    is_last: bool,
    prefix: Seq<char>,
    suffix: Seq<char>,
) -> Seq<char> {
    let t1 = if !is_first && prefix.len() <= t.len() && t.subrange(0, prefix.len() as int)
        == prefix {
        t.skip(prefix.len() as int)
    } else {
        t
    };
    if is_last && suffix.len() <= t1.len() && t1.subrange(
        t1.len() - suffix.len(),
        t1.len() as int,
    ) == suffix {
        t1.take(t1.len() - suffix.len())
    } else {
        t1
    }
}

/// The decoded text of the first `i` token ids: each token's string,
/// affixes stripped, concatenated in order.
pub open spec fn decode_upto(
    ids: Seq<usize>,
    vocab: Seq<Seq<char>>,
    prefix: Seq<char>,
    suffix: Seq<char>,
    i: int,
) -> Seq<char>
    decreases i,
{
    if i <= 0 {
        Seq::<char>::empty()
    } else {
        decode_upto(ids, vocab, prefix, suffix, i - 1) + strip_token(
            vocab[ids[i - 1] as int],
            i - 1 == 0,
            i == ids.len(),
            prefix,
            suffix,
        )
    }
}

/// The decoded text of a token-id sequence.
pub open spec fn decode_spec(
    ids: Seq<usize>,
    vocab: Seq<Seq<char>>,
    prefix: Seq<char>,
    suffix: Seq<char>,
) -> Seq<char> {
    decode_upto(ids, vocab, prefix, suffix, ids.len() as int)
}

/// Round trip: decoding the token ids that tokenization produced
/// reproduces the word exactly, for a model without affixes — each token's
/// string is the word slice it covers, stripping removes nothing, and the
/// slices tile the word.
pub proof fn lemma_decode_round_trip(
    toks: Seq<Token>,
    ids: Seq<usize>,
    word: Seq<char>,
    vocab: Seq<Seq<char>>,
)
    requires
        tokens_frame(toks, word.len() as int, vocab),
        tokens_match_word(toks, word),
        ids.len() == toks.len(),
        forall|k: int| 0 <= k < toks.len() ==> (#[trigger] ids[k]) == toks[k].id,
    ensures
        decode_spec(ids, vocab, Seq::<char>::empty(), Seq::<char>::empty()) == word,
{
    lemma_decode_prefix(toks, ids, word, vocab, ids.len() as int);
    if toks.len() == 0 {
        assert(decode_spec(ids, vocab, Seq::<char>::empty(), Seq::<char>::empty()) =~= word);
    } else {
        assert(word.subrange(0, toks[toks.len() - 1].end as int) =~= word);
    }
}

/// The decoded text of the first `i` ids is the word prefix up to the end
/// of token `i - 1` (affixes empty).
proof fn lemma_decode_prefix(
    toks: Seq<Token>,
    ids: Seq<usize>,
    word: Seq<char>,
    vocab: Seq<Seq<char>>,
    i: int,
)
    requires
        tokens_frame(toks, word.len() as int, vocab),
        tokens_match_word(toks, word),
        ids.len() == toks.len(),
        forall|k: int| 0 <= k < toks.len() ==> (#[trigger] ids[k]) == toks[k].id,
        0 <= i <= ids.len(),
    ensures
        decode_upto(ids, vocab, Seq::<char>::empty(), Seq::<char>::empty(), i) == word.subrange(
            0,
            if i == 0 {
                0
            } else {
                toks[i - 1].end as int
            },
        ),
    decreases i,
{
    let e = Seq::<char>::empty();
    if i == 0 {
        assert(decode_upto(ids, vocab, e, e, 0) =~= word.subrange(0, 0));
    } else {
        lemma_decode_prefix(toks, ids, word, vocab, i - 1);
        let t = vocab[ids[i - 1] as int];
        assert(t == toks[i - 1].value@);
        let stripped = strip_token(t, i - 1 == 0, i == ids.len(), e, e);
        assert(t.skip(0) =~= t);
        assert(stripped =~= t);
        let lo = if i == 1 {
            0
        } else {
            toks[i - 2].end as int
        };
        assert(toks[i - 1].start as int == lo);
        assert(word.subrange(0, lo) + word.subrange(lo, toks[i - 1].end as int) =~= word.subrange(
            0,
            toks[i - 1].end as int,
        ));
    }
}

/// True when the two strings hold the same characters.
fn str_eq(a: &str, b: &str) -> (r: bool)
    ensures
        r == (a@ == b@),
{
    let sa = String::from_str(a);
    let sb = String::from_str(b);
    sa.eq(&sb)
}

impl BpeModel {
    /// Assigns a freshly trained vocabulary and merge table into this
    /// model: the explicit step that follows training.  The merge table is
    /// validated against the new vocabulary and the unknown token, if one
    /// is configured, is carried over by its string; the encoding cache is
    /// invalidated.  On error the model is left unchanged.
    pub fn set_model(&mut self, vocab: Vocabulary, merges: MergeTable) -> (r: Result<
        (),
        BpeError,
    >)
        requires
            old(self).wf(),
            vocab.wf(),
            table_ok(merges@, vocab@),
        ensures
            final(self).wf(),
            match r {
                Ok(_) => {
                    &&& final(self).vocab_view() == vocab@
                    &&& final(self).merges_view() == merges@
                    &&& final(self).prefix_view() == old(self).prefix_view()
                    &&& final(self).suffix_view() == old(self).suffix_view()
                    &&& final(self).fuse_view() == old(self).fuse_view()
                    &&& final(self).dropout_view() == old(self).dropout_view()
                    &&& final(self).capacity_view() == old(self).capacity_view()
                    &&& (match old(self).unk_view() {
                        Some(u) => final(self).unk_view() matches Some(u2) && u2 < vocab@.len()
                            && vocab@[u2 as int] == old(self).vocab_view()[u as int],
                        None => final(self).unk_view() is None,
                    })
                },
                Err(e) => {
                    &&& *final(self) == *old(self)
                    &&& e == BpeError::UnkTokenAbsent
                    &&& old(self).unk_view() matches Some(u) && !has_token(
                        vocab@,
                        old(self).vocab_view()[u as int],
                    )
                },
            },
    {
        let unk_id = match self.unk_id {
            Some(u) => {
                let t = match self.vocab.get_token(u) {
                    Some(t) => t,
                    None => {
                        proof {
                            assert(false);
                        }
                        String::new()
                    },
                };
                match vocab.get_id(t.as_str()) {
                    Some(u2) => Some(u2),
                    None => {
                        return Err(BpeError::UnkTokenAbsent);
                    },
                }
            },
            None => None,
        };
        self.vocab = vocab;
        self.merges = merges;
        self.unk_id = unk_id;
        self.cache = Vec::new();
        Ok(())
    }

    /// Tokenizes with the added-token registry honored first: a word that
    /// is exactly a registered special token is extracted whole, mapped
    /// directly to its reserved id and never subjected to merge search;
    /// any other word goes through the ordinary pipeline.
    pub fn tokenize_with_specials(
        &mut self,
        registry: &crate::added::AddedTokenRegistry,
        word: &str,
    ) -> (r: Result<Vec<Token>, BpeError>)
        requires
            old(self).wf(),
        ensures
            final(self).wf(),
            final(self).same_config(old(self)),
            (has_token(registry@, word@) && has_token(old(self).vocab_view(), word@)) ==> match r {
                Ok(toks) => {
                    &&& toks@.len() == 1
                    &&& toks@[0].value@ == word@
                    &&& toks@[0].id < old(self).vocab_view().len()
                    &&& old(self).vocab_view()[toks@[0].id as int] == word@
                    &&& toks@[0].start == 0 && toks@[0].end == word@.len()
                },
                Err(_) => false,
            },
            !(has_token(registry@, word@) && has_token(old(self).vocab_view(), word@)) ==> match r {
                Ok(toks) => {
                    &&& old(self).spec_resolvable(word@)
                    &&& tokens_frame(toks@, word@.len() as int, old(self).vocab_view())
                    &&& (old(self).prefix_view().len() == 0 && old(self).suffix_view().len() == 0
                        && first_unknown(
                        word@,
                        old(self).vocab_view(),
                        old(self).prefix_view(),
                        old(self).suffix_view(),
                    ) is None) ==> tokens_match_word(toks@, word@)
                    &&& (old(self).dropout_view() == 0 ==> tokens_correspond(
                        toks@,
                        old(self).spec_tokenize(word@),
                        old(self).vocab_view(),
                    ))
                },
                Err(e) => {
                    &&& !old(self).spec_resolvable(word@)
                    &&& first_unknown(
                        word@,
                        old(self).vocab_view(),
                        old(self).prefix_view(),
                        old(self).suffix_view(),
                    ) matches Some(p) && e == (BpeError::UnknownCharacter { position: p as usize })
                },
            },
    {
        let wlen = word.unicode_len();
        match registry.full_match(word, &self.vocab) {
            Some(id) => {
                let value = match self.vocab.get_token(id) {
                    Some(v) => v,
                    None => {
                        proof {
                            assert(false);
                        }
                        String::new()
                    },
                };
                Ok(vec![Token { id, value, start: 0, end: wlen }])
            },
            None => self.tokenize(word),
        }
    }

    /// Decodes a token-id sequence back to text: each token's string with
    /// its positional affixes stripped, concatenated in order.  `None`
    /// exactly when some id is not in the vocabulary.
    pub fn decode(&self, ids: &Vec<usize>) -> (r: Option<String>)
        requires
            self.wf(),
        ensures
            match r {
                Some(s) => (forall|k: int|
                    0 <= k < ids@.len() ==> (#[trigger] ids@[k]) < self.vocab_view().len()) && s@
                    == decode_spec(ids@, self.vocab_view(), self.prefix_view(), self.suffix_view()),
                None => exists|k: int|
                    0 <= k < ids@.len() && (#[trigger] ids@[k]) >= self.vocab_view().len(),
            },
    {
        let n = ids.len();
        let mut out = String::new();
        for k in 0..n
            invariant
                n == ids@.len(),
                self.wf(),
                forall|j: int| 0 <= j < k ==> (#[trigger] ids@[j]) < self.vocab_view().len(),
                out@ == decode_upto(
                    ids@,
                    self.vocab_view(),
                    self.prefix_view(),
                    self.suffix_view(),
                    k as int,
                ),
        {
            let t = match self.vocab.get_token(ids[k]) {
                Some(t) => t,
                None => {
                    assert(ids@[k as int] >= self.vocab_view().len());
                    return None;
                },
            };
            let tl = t.as_str().unicode_len();
            let plen = self.prefix.as_str().unicode_len();
            let slen = self.suffix.as_str().unicode_len();
            let sp: usize = if k > 0 && plen <= tl && str_eq(
                t.as_str().substring_char(0, plen),
                self.prefix.as_str(),
            ) {
                plen
            } else {
                0
            };
            let ep: usize = if k + 1 == n && slen <= tl - sp && str_eq(
                t.as_str().substring_char(tl - slen, tl),
                self.suffix.as_str(),
            ) {
                tl - slen
            } else {
                tl
            };
            let piece = t.as_str().substring_char(sp, ep);
            proof {
                let ts = t@;
                let pv = self.prefix_view();
                let sv = self.suffix_view();
                let stripped = strip_token(ts, k == 0, k + 1 == n, pv, sv);
                let cond_p = k > 0 && pv.len() <= ts.len() && ts.subrange(0, pv.len() as int)
                    == pv;
                let t1 = if cond_p {
                    ts.skip(pv.len() as int)
                } else {
                    ts
                };
                assert(sp == (if cond_p {
                    pv.len()
                } else {
                    0
                }));
                assert(t1 =~= ts.subrange(sp as int, ts.len() as int));
                if sv.len() <= t1.len() {
                    assert(t1.subrange(t1.len() - sv.len(), t1.len() as int) =~= ts.subrange(
                        ts.len() - sv.len(),
                        ts.len() as int,
                    ));
                }
                let cond_s = (k + 1 == n) && sv.len() <= t1.len() && t1.subrange(
                    t1.len() - sv.len(),
                    t1.len() as int,
                ) == sv;
                assert(ep == (if cond_s {
                    tl - slen
                } else {
                    tl as int
                }));
                assert(stripped == (if cond_s {
                    t1.take(t1.len() - sv.len())
                } else {
                    t1
                }));
                assert(piece@ =~= stripped);
            }
            out.append(piece);
        }
        assert(out@ == decode_spec(
            ids@,
            self.vocab_view(),
            self.prefix_view(),
            self.suffix_view(),
        ));
        Some(out)
    }
}

/// Advances the xorshift random state and returns a draw.  The state is
/// kept away from the all-zero fixed point.
fn next_rand(rng: &mut u64) -> (r: u64) {
    let mut x = *rng;
    x = x ^ (x << 13u64);
    x = x ^ (x >> 7u64);
    x = x ^ (x << 17u64);
    if x == 0 {
        x = 0x9E3779B97F4A7C15u64;
    }
    *rng = x;
    x
}

/// True when `v` holds `x`.
fn contains_usize(v: &Vec<usize>, x: usize) -> (r: bool) {
    let n = v.len();
    for i in 0..n
        invariant
            n == v@.len(),
    {
        if v[i] == x {
            return true;
        }
    }
    false
}

/// The best merge candidate at a position not in `skipped`, as
/// `(rank, position)`.
fn find_best_excluding(table: &MergeTable, syms: &Vec<Symbol>, skipped: &Vec<usize>) -> (r: Option<
    (usize, usize),
>)
    ensures
        match r {
            Some(c) => {
                &&& c.0 < table@.len()
                &&& c.1 + 1 < syms@.len()
                &&& table@[c.0 as int].left == syms@[c.1 as int].id
                &&& table@[c.0 as int].right == syms@[c.1 as int + 1].id
            },
            None => true,
        },
{
    let n = syms.len();
    if n < 2 {
        return None;
    }
    let mut best: Option<(usize, usize)> = None;
    let mut p: usize = 0;
    while p < n - 1
        invariant
            n == syms@.len(),
            2 <= n,
            p <= n - 1,
            match best {
                Some(c) => {
                    &&& c.0 < table@.len()
                    &&& c.1 + 1 < syms@.len()
                    &&& table@[c.0 as int].left == syms@[c.1 as int].id
                    &&& table@[c.0 as int].right == syms@[c.1 as int + 1].id
                },
                None => true,
            },
        decreases n - p,
    {
        match table.lookup(syms[p].id, syms[p + 1].id) {
            Some(c) => {
                if !contains_usize(skipped, p) {
                    proof {
                        crate::merges::lemma_rank_from_props(
                            table@,
                            0,
                            syms@[p as int].id,
                            syms@[p as int + 1].id,
                        );
                    }
                    best = match best {
                        Some(b) => if c.0 < b.0 {
                            Some((c.0, p))
                        } else {
                            Some(b)
                        },
                        None => Some((c.0, p)),
                    };
                }
            },
            None => {},
        }
        p = p + 1;
    }
    best
}

/// Applies merges with dropout: repeatedly takes the best remaining
/// candidate and either applies it or, with probability
/// `dropout / DROPOUT_SCALE`, skips it.  A deliberate coarsening: the skip
/// is drawn independently per candidate occurrence: a skipped position is
/// excluded from the search until the next applied merge, after which every
/// candidate is considered (and drawn for) afresh.  Once `budget` is
/// exhausted a merge is applied regardless of the draw; the budget never
/// runs out in practice, since at most one skip can happen per position
/// between two merges.  Whatever the draws, the result is a sound tiling
/// of the word.
fn merge_word_dropout(
    table: &MergeTable,
    syms: &mut Vec<Symbol>,
    rng: &mut u64,
    dropout: u32,
    Ghost(word): Ghost<Seq<char>>,
    Ghost(vocab): Ghost<Seq<Seq<char>>>,
)
    requires
        table_ok(table@, vocab),
        syms_frame(old(syms)@, word.len() as int, vocab.len() as int),
    ensures
        syms_frame(final(syms)@, word.len() as int, vocab.len() as int),
        final(syms)@.len() <= old(syms)@.len(),
        old(syms)@.len() > 0 ==> final(syms)@.len() > 0,
        syms_match_word(old(syms)@, word, vocab) ==> syms_match_word(final(syms)@, word, vocab),
{
    let mut skipped: Vec<usize> = Vec::new();
    let plen = syms.len();
    // `budget` bounds consecutive skips between two applied merges.  Each
    // skip records a position the candidate search then excludes, and there
    // are fewer positions than symbols, so the search runs dry before
    // `plen` skips; the counter only makes termination a local argument.
    let mut budget = plen;
    let mut done = false;
    let ghost orig = syms@;
    while !done
        invariant
            table_ok(table@, vocab),
            syms_frame(syms@, word.len() as int, vocab.len() as int),
            syms@.len() <= orig.len(),
            orig.len() > 0 ==> syms@.len() > 0,
            syms_match_word(orig, word, vocab) ==> syms_match_word(syms@, word, vocab),
            budget <= plen,
        decreases syms@.len(), budget, (if done {
            0int
        } else {
            1int
        }),
    {
        match find_best_excluding(table, syms, &skipped) {
            None => {
                done = true;
            },
            Some(c) => {
                let draw = next_rand(rng);
                if dropout > 0 && budget > 0 && (draw % (DROPOUT_SCALE as u64)) < (
                dropout as u64) {
                    skipped.push(c.1);
                    budget = budget - 1;
                } else {
                    let rank = c.0;
                    let p = c.1;
                    let n_now = syms.len();
                    assert(p + 1 < n_now);
                    let rule = match table.rule_at(rank) {
                        Some(rule) => rule,
                        None => {
                            proof {
                                assert(false);
                            }
                            MergeRule { left: 0, right: 0, new_id: 0 }
                        },
                    };
                    let ghost pre = syms@;
                    let merged = Symbol {
                        id: rule.new_id,
                        start: syms[p].start,
                        end: syms[p + 1].end,
                    };
                    syms[p] = merged;
                    syms.remove(p + 1);
                    proof {
                        assert(syms@ =~= crate::word::splice(pre, p as int, rule.new_id));
                        crate::word::lemma_splice_preserves(
                            table@,
                            pre,
                            word,
                            vocab,
                            p as int,
                            rank as int,
                        );
                    }
                    skipped = Vec::new();
                    budget = plen;
                }
            },
        }
    }
}

} // verus!
