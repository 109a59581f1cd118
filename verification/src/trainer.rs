//! The BPE trainer: accumulates word frequencies, then learns a vocabulary
//! and an ordered merge table from them.  Special tokens are reserved
//! first, then the initial alphabet (rendered with the configured affixes),
//! then merges are minted greedily by pair frequency until the target
//! vocabulary size is reached or no pair is frequent enough.

use vstd::prelude::*;

use crate::added::AddedToken;
use crate::merges::{MergeRule, MergeTable, lemma_table_ok_extends, table_ok};
use crate::model::render_at;
use crate::vocab::{
    Vocabulary, has_token, lemma_has_token_extends, lemma_token_index, seq_extends, spec_add,
    token_index, tokens_unique,
};

verus! {

/// Saturating addition on `u64`, the semantics of frequency accumulation.
pub open spec fn sat_add(a: u64, b: u64) -> u64 {
    if a + b > u64::MAX {
        u64::MAX
    } else {
        (a + b) as u64
    }
}

/// `a` carries the same content and matching options as `b`.
pub open spec fn token_like(a: AddedToken, b: AddedToken) -> bool {
    &&& a.content@ == b.content@
    &&& a.single_word == b.single_word
    &&& a.lstrip == b.lstrip
    &&& a.rstrip == b.rstrip
    &&& a.normalized == b.normalized
    &&& a.special == b.special
}

/// One accumulated word with its corpus frequency.
pub struct WordCount {
    pub word: String,
    pub count: u64,
}

/// `s` holds an entry for word `w`.
pub open spec fn has_word(s: Seq<(Seq<char>, u64)>, w: Seq<char>) -> bool {
    exists|i: int| 0 <= i < s.len() && s[i].0 == w
}

/// The index of the entry for `w` (unique under `words_unique`).
pub open spec fn word_index(s: Seq<(Seq<char>, u64)>, w: Seq<char>) -> int {
    choose|i: int| 0 <= i < s.len() && s[i].0 == w
}

/// No word has two entries.
pub open spec fn words_unique(s: Seq<(Seq<char>, u64)>) -> bool {
    forall|i: int, j: int| 0 <= i < j < s.len() ==> s[i].0 != s[j].0
}

/// The accumulated frequency of `w` in `s` (0 when absent).
pub open spec fn freq_of(s: Seq<(Seq<char>, u64)>, w: Seq<char>) -> u64 {
    if has_word(s, w) {
        s[word_index(s, w)].1
    } else {
        0
    }
}

/// Under uniqueness, `word_index` recovers exactly the index an entry
/// stands at.
pub proof fn lemma_word_index(s: Seq<(Seq<char>, u64)>, i: int, w: Seq<char>)
    requires
        words_unique(s),
        0 <= i < s.len(),
        s[i].0 == w,
    ensures
        has_word(s, w),
        word_index(s, w) == i,
{
    assert(has_word(s, w));
    let j = word_index(s, w);
    if j < i {
        assert(s[j].0 != s[i].0);
    } else if j > i {
        assert(s[i].0 != s[j].0);
    }
}

/// The frequency table after one feed of `(w, count)`: the entry for `w`
/// saturating-increased, or appended with `count` when absent.
pub open spec fn spec_feed(s: Seq<(Seq<char>, u64)>, w: Seq<char>, count: u64) -> Seq<
    (Seq<char>, u64),
> {
    if has_word(s, w) {
        s.update(word_index(s, w), (w, sat_add(s[word_index(s, w)].1, count)))
    } else {
        s.push((w, count))
    }
}

/// The BPE trainer: configuration plus the accumulated frequency table.
pub struct BpeTrainer {
    vocab_size: usize,
    min_frequency: u64,
    show_progress: bool,
    special_tokens: Vec<AddedToken>,
    limit_alphabet: Option<usize>,
    initial_alphabet: Vec<String>,
    continuing_subword_prefix: String,
    end_of_word_suffix: String,
    words: Vec<WordCount>,
}

impl BpeTrainer {
    /// The accumulated word-frequency table, in first-seen order.
    pub closed spec fn words_view(&self) -> Seq<(Seq<char>, u64)> {
        self.words@.map(|i: int, wc: WordCount| (wc.word@, wc.count))
    }

    /// The target vocabulary size.
    pub closed spec fn vocab_size_view(&self) -> usize {
        self.vocab_size
    }

    /// The minimum pair frequency for a merge.
    pub closed spec fn min_frequency_view(&self) -> u64 {
        self.min_frequency
    }

    /// The configured special tokens' contents, in order.
    pub closed spec fn specials_view(&self) -> Seq<Seq<char>> {
        self.special_tokens@.map(|i: int, t: AddedToken| t.content@)
    }

    /// Whether training progress should be reported.
    pub closed spec fn show_progress_view(&self) -> bool {
        self.show_progress
    }

    /// The alphabet cap, when one is configured.
    pub closed spec fn limit_alphabet_view(&self) -> Option<usize> {
        self.limit_alphabet
    }

    /// The force-included initial alphabet, as the supplied strings (the
    /// first character of each non-empty one is forced; empty strings are
    /// dropped, longer ones truncated to their first character).
    pub closed spec fn initial_alphabet_view(&self) -> Seq<Seq<char>> {
        self.initial_alphabet@.map(|i: int, s: String| s@)
    }

    /// The continuing-subword prefix (empty when not configured).
    pub closed spec fn prefix_view(&self) -> Seq<char> {
        self.continuing_subword_prefix@
    }

    /// The end-of-word suffix (empty when not configured).
    pub closed spec fn suffix_view(&self) -> Seq<char> {
        self.end_of_word_suffix@
    }

    /// Well-formed: one entry per word.
    pub open spec fn wf(&self) -> bool {
        words_unique(self.words_view())
    }

    /// Builds a trainer.  Omitted options take their defaults: target size
    /// 30000, minimum frequency 0, progress reporting on, no alphabet cap,
    /// no forced alphabet, empty affixes, no special tokens.
    pub fn new(
        vocab_size: Option<usize>,
        min_frequency: Option<u64>,
        show_progress: Option<bool>,
        special_tokens: Option<Vec<AddedToken>>,
        limit_alphabet: Option<usize>,
        initial_alphabet: Option<Vec<String>>,
        continuing_subword_prefix: Option<String>,
        end_of_word_suffix: Option<String>,
    ) -> (t: BpeTrainer)
        ensures
            t.wf(),
            t.words_view() =~= Seq::<(Seq<char>, u64)>::empty(),
            t.vocab_size_view() == (match vocab_size {
                Some(n) => n,
                None => 30000usize,
            }),
            t.min_frequency_view() == (match min_frequency {
                Some(n) => n,
                None => 0u64,
            }),
            t.specials_view() == (match special_tokens {
                Some(ts) => ts@.map(|i: int, tok: AddedToken| tok.content@),
                None => Seq::<Seq<char>>::empty(),
            }),
            special_tokens matches Some(ts) ==> forall|k: int|
                0 <= k < ts@.len() ==> token_like(#[trigger] t.spec_special(k), ts@[k]),
            t.show_progress_view() == (match show_progress {
                Some(b) => b,
                None => true,
            }),
            t.limit_alphabet_view() == limit_alphabet,
            t.initial_alphabet_view() == (match initial_alphabet {
                Some(a) => a@.map(|i: int, s: String| s@),
                None => Seq::<Seq<char>>::empty(),
            }),
            t.prefix_view() == (match continuing_subword_prefix {
                Some(p) => p@,
                None => Seq::<char>::empty(),
            }),
            t.suffix_view() == (match end_of_word_suffix {
                Some(s) => s@,
                None => Seq::<char>::empty(),
            }),
    {
        let specials = match special_tokens {
            Some(ts) => ts,
            None => Vec::new(),
        };
        assert(specials@.len() == 0 ==> specials@.map(|i: int, tok: AddedToken| tok.content@)
            =~= Seq::<Seq<char>>::empty());
        let initial = match initial_alphabet {
            Some(a) => a,
            None => Vec::new(),
        };
        assert(initial@.len() == 0 ==> initial@.map(|i: int, s: String| s@)
            =~= Seq::<Seq<char>>::empty());
        BpeTrainer {
            vocab_size: match vocab_size {
                Some(n) => n,
                None => 30000,
            },
            min_frequency: match min_frequency {
                Some(n) => n,
                None => 0,
            },
            show_progress: match show_progress {
                Some(b) => b,
                None => true,
            },
            special_tokens: specials,
            limit_alphabet,
            initial_alphabet: initial,
            continuing_subword_prefix: match continuing_subword_prefix {
                Some(p) => p,
                None => String::new(),
            },
            end_of_word_suffix: match end_of_word_suffix {
                Some(s) => s,
                None => String::new(),
            },
            words: Vec::new(),
        }
    }

    /// Whether training progress should be reported by the host.
    pub fn should_show_progress(&self) -> (r: bool)
        ensures
            r == self.show_progress_view(),
    {
        self.show_progress
    }

    /// The configured special tokens, copied in order with all their
    /// matching options.
    pub fn get_special_tokens(&self) -> (r: Vec<AddedToken>)
        ensures
            r@.map(|i: int, t: AddedToken| t.content@) == self.specials_view(),
            r@.len() == self.specials_view().len(),
            forall|k: int|
                0 <= k < r@.len() ==> token_like(#[trigger] r@[k], self.spec_special(k)),
    {
        let n = self.special_tokens.len();
        let mut out: Vec<AddedToken> = Vec::new();
        for i in 0..n
            invariant
                n == self.special_tokens@.len(),
                out@.len() == i,
                forall|k: int| 0 <= k < i ==> token_like(#[trigger] out@[k], self.spec_special(k)),
        {
            out.push(self.special_tokens[i].duplicate());
        }
        assert(out@.map(|i: int, t: AddedToken| t.content@) =~= self.specials_view());
        out
    }

    /// The configured special token at index `k` (meaningful for
    /// `k < specials_view().len()`).
    pub closed spec fn spec_special(&self, k: int) -> AddedToken {
        self.special_tokens@[k]
    }

    /// Accumulates `count` occurrences of `word`.  Frequencies add
    /// saturating; counting is commutative, so shards fed in any order
    /// accumulate to the same table contents per word.
    pub fn feed_word(&mut self, word: &str, count: u64)
        requires
            old(self).wf(),
        ensures
            final(self).wf(),
            final(self).words_view() == spec_feed(old(self).words_view(), word@, count),
            final(self).vocab_size_view() == old(self).vocab_size_view(),
            final(self).min_frequency_view() == old(self).min_frequency_view(),
            final(self).specials_view() == old(self).specials_view(),
            forall|x: Seq<char>| #[trigger]
                freq_of(final(self).words_view(), x) == (if x == word@ {
                    sat_add(freq_of(old(self).words_view(), x), count)
                } else {
                    freq_of(old(self).words_view(), x)
                }),
    {
        let w = String::from_str(word);
        let n = self.words.len();
        let ghost pre = self.words_view();
        let mut j: usize = 0;
        while j < n
            invariant
                n == self.words@.len(),
                j <= n,
                w@ == word@,
                pre == self.words_view(),
                words_unique(pre),
                old(self) == self,
                forall|k: int| 0 <= k < j ==> pre[k].0 != word@,
            decreases n - j,
        {
            if self.words[j].word.eq(&w) {
                proof {
                    lemma_word_index(pre, j as int, word@);
                }
                let c = self.words[j].count;
                let newc = c.saturating_add(count);
                self.words[j].count = newc;
                proof {
                    assert(self.words_view() =~= pre.update(j as int, (word@, sat_add(c, count))));
                    lemma_feed_found(pre, j as int, word@, count, self.words_view());
                }
                return ;
            }
            j = j + 1;
        }
        self.words.push(WordCount { word: w, count });
        proof {
            assert(self.words_view() =~= pre.push((word@, count)));
            lemma_feed_appended(pre, word@, count, self.words_view());
        }
    }
}

/// The vocabulary after adding the first `i` of `toks`, in order.
pub open spec fn add_all(vocab: Seq<Seq<char>>, toks: Seq<Seq<char>>, i: int) -> Seq<Seq<char>>
    decreases i,
{
    if i <= 0 {
        vocab
    } else {
        spec_add(add_all(vocab, toks, i - 1), toks[i - 1])
    }
}

/// One observed alphabet character: its weighted frequency and the word
/// position classes it occurred at (those decide which affixed variants
/// enter the vocabulary).
pub struct AlphaRec {
    pub ch: char,
    pub count: u64,
    pub seen_alone: bool,
    pub seen_first: bool,
    pub seen_inner: bool,
    pub seen_last: bool,
}

/// `alpha` holds a record for character `c`.
pub open spec fn alpha_has(alpha: Seq<AlphaRec>, c: char) -> bool {
    exists|i: int| 0 <= i < alpha.len() && alpha[i].ch == c
}

/// The index of the record for `c` (unique under `alpha_unique`).
pub open spec fn alpha_index(alpha: Seq<AlphaRec>, c: char) -> int {
    choose|i: int| 0 <= i < alpha.len() && alpha[i].ch == c
}

/// No character has two records.
pub open spec fn alpha_unique(alpha: Seq<AlphaRec>) -> bool {
    forall|i: int, j: int| 0 <= i < j < alpha.len() ==> alpha[i].ch != alpha[j].ch
}

/// Under uniqueness, `alpha_index` recovers exactly the index a record
/// stands at.
pub proof fn lemma_alpha_index(alpha: Seq<AlphaRec>, i: int, c: char)
    requires
        alpha_unique(alpha),
        0 <= i < alpha.len(),
        alpha[i].ch == c,
    ensures
        alpha_has(alpha, c),
        alpha_index(alpha, c) == i,
{
    assert(alpha_has(alpha, c));
    let j = alpha_index(alpha, c);
    if j < i {
        assert(alpha[j].ch != alpha[i].ch);
    } else if j > i {
        assert(alpha[i].ch != alpha[j].ch);
    }
}

/// One character occurrence folded into the alphabet: the record's count
/// grows by the word's frequency and its position flags absorb the
/// occurrence's, or a fresh record is appended.
pub open spec fn alpha_add(
    alpha: Seq<AlphaRec>,
    c: char,
    cnt: u64,
    alone: bool,
    first: bool,
    inner: bool,
    last: bool,
) -> Seq<AlphaRec> {
    if alpha_has(alpha, c) {
        let i = alpha_index(alpha, c);
        let r = alpha[i];
        alpha.update(
            i,
            AlphaRec {
                ch: c,
                count: sat_add(r.count, cnt),
                seen_alone: r.seen_alone || alone,
                seen_first: r.seen_first || first,
                seen_inner: r.seen_inner || inner,
                seen_last: r.seen_last || last,
            },
        )
    } else {
        alpha.push(
            AlphaRec {
                ch: c,
                count: cnt,
                seen_alone: alone,
                seen_first: first,
                seen_inner: inner,
                seen_last: last,
            },
        )
    }
}

/// The alphabet after observing the characters of `word` from position
/// `i` on, each weighted by `cnt`.
pub open spec fn alpha_scan_word(alpha: Seq<AlphaRec>, word: Seq<char>, cnt: u64, i: int) -> Seq<
    AlphaRec,
>
    decreases word.len() - i,
{
    if i < 0 || i >= word.len() {
        alpha
    } else {
        alpha_scan_word(
            alpha_add(
                alpha,
                word[i],
                cnt,
                word.len() == 1,
                i == 0 && word.len() > 1,
                i > 0 && i + 1 < word.len(),
                i + 1 == word.len() && word.len() > 1,
            ),
            word,
            cnt,
            i + 1,
        )
    }
}

/// The alphabet after observing the words from index `wi` on.
pub open spec fn alpha_scan(
    words: Seq<(Seq<char>, u64)>,
    alpha: Seq<AlphaRec>,
    wi: int,
) -> Seq<AlphaRec>
    decreases words.len() - wi,
{
    if wi < 0 || wi >= words.len() {
        alpha
    } else {
        alpha_scan(words, alpha_scan_word(alpha, words[wi].0, words[wi].1, 0), wi + 1)
    }
}

/// One forced initial-alphabet entry: the first character of a non-empty
/// string becomes immune to the cap (count saturated) and is at least
/// inserted in its bare form; empty strings are dropped.
pub open spec fn alpha_force_one(alpha: Seq<AlphaRec>, s: Seq<char>) -> Seq<AlphaRec> {
    if s.len() == 0 {
        alpha
    } else if alpha_has(alpha, s[0]) {
        let i = alpha_index(alpha, s[0]);
        let r = alpha[i];
        alpha.update(
            i,
            AlphaRec {
                ch: s[0],
                count: u64::MAX,
                seen_alone: r.seen_alone,
                seen_first: true,
                seen_inner: r.seen_inner,
                seen_last: r.seen_last,
            },
        )
    } else {
        alpha.push(
            AlphaRec {
                ch: s[0],
                count: u64::MAX,
                seen_alone: false,
                seen_first: true,
                seen_inner: false,
                seen_last: false,
            },
        )
    }
}

/// The alphabet after forcing the entries from index `i` on.
pub open spec fn alpha_forced(alpha: Seq<AlphaRec>, strs: Seq<Seq<char>>, i: int) -> Seq<AlphaRec>
    decreases strs.len() - i,
{
    if i < 0 || i >= strs.len() {
        alpha
    } else {
        alpha_forced(alpha_force_one(alpha, strs[i]), strs, i + 1)
    }
}

/// `a` is more droppable than `b`: rarer, or equally rare and the greater
/// character.
pub open spec fn worse(a: AlphaRec, b: AlphaRec) -> bool {
    a.count < b.count || (a.count == b.count && a.ch as u32 > b.ch as u32)
}

/// The most droppable record's index among positions `>= i`, seeded with
/// candidate `w`.
pub open spec fn worst_from(alpha: Seq<AlphaRec>, i: int, w: int) -> int
    decreases alpha.len() - i,
{
    if i < 0 || i >= alpha.len() {
        w
    } else {
        worst_from(
            alpha,
            i + 1,
            if worse(alpha[i], alpha[w]) {
                i
            } else {
                w
            },
        )
    }
}

/// `worst_from` stays in range when seeded in range.
pub proof fn lemma_worst_from_in_range(alpha: Seq<AlphaRec>, i: int, w: int)
    requires
        0 <= w < alpha.len(),
    ensures
        0 <= worst_from(alpha, i, w) < alpha.len(),
    decreases alpha.len() - i,
{
    if 0 <= i < alpha.len() {
        lemma_worst_from_in_range(
            alpha,
            i + 1,
            if worse(alpha[i], alpha[w]) {
                i
            } else {
                w
            },
        );
    }
}

/// The alphabet truncated to `cap` records: least-frequent characters are
/// dropped first, ties resolved by dropping the greater character.
pub open spec fn capped(alpha: Seq<AlphaRec>, cap: usize) -> Seq<AlphaRec>
    decreases alpha.len(),
    via capped_decreases
{
    if alpha.len() <= cap {
        alpha
    } else {
        capped(alpha.remove(worst_from(alpha, 1, 0)), cap)
    }
}

#[via_fn]
proof fn capped_decreases(alpha: Seq<AlphaRec>, cap: usize) {
    if alpha.len() > cap {
        lemma_worst_from_in_range(alpha, 1, 0);
    }
}

/// One surviving alphabet record's rendered variants entering the
/// vocabulary, in a fixed order: bare, with the suffix, with the prefix,
/// with both — each only where the position class occurred.
pub open spec fn insert_rec(
    vocab: Seq<Seq<char>>,
    r: AlphaRec,
    prefix: Seq<char>,
    suffix: Seq<char>,
) -> Seq<Seq<char>> {
    let base = seq![r.ch];
    let v1 = if r.seen_first {
        spec_add(vocab, base)
    } else {
        vocab
    };
    let v2 = if r.seen_alone {
        spec_add(v1, base + suffix)
    } else {
        v1
    };
    let v3 = if r.seen_inner {
        spec_add(v2, prefix + base)
    } else {
        v2
    };
    if r.seen_last {
        spec_add(v3, prefix + base + suffix)
    } else {
        v3
    }
}

/// The vocabulary after inserting the alphabet records from index `i` on.
pub open spec fn insert_alphabet(
    vocab: Seq<Seq<char>>,
    alpha: Seq<AlphaRec>,
    prefix: Seq<char>,
    suffix: Seq<char>,
    i: int,
) -> Seq<Seq<char>>
    decreases alpha.len() - i,
{
    if i < 0 || i >= alpha.len() {
        vocab
    } else {
        insert_alphabet(insert_rec(vocab, alpha[i], prefix, suffix), alpha, prefix, suffix, i + 1)
    }
}

/// The symbol ids of `word` from position `i` on over `vocab`: each
/// position's rendered form resolved to its id, positions whose render is
/// out of the vocabulary dropped (treated as unknown during training).
pub open spec fn word_ids(
    vocab: Seq<Seq<char>>,
    word: Seq<char>,
    prefix: Seq<char>,
    suffix: Seq<char>,
    i: int,
) -> Seq<usize>
    decreases word.len() - i,
{
    if i < 0 || i >= word.len() {
        Seq::<usize>::empty()
    } else {
        let rendered = render_at(word, i, prefix, suffix);
        let rest = word_ids(vocab, word, prefix, suffix, i + 1);
        if has_token(vocab, rendered) {
            seq![token_index(vocab, rendered) as usize] + rest
        } else {
            rest
        }
    }
}

/// Every fed word as its symbol ids, with its frequency.
pub open spec fn all_word_ids(
    vocab: Seq<Seq<char>>,
    words: Seq<(Seq<char>, u64)>,
    prefix: Seq<char>,
    suffix: Seq<char>,
) -> Seq<(Seq<usize>, u64)> {
    words.map(|i: int, w: (Seq<char>, u64)| (word_ids(vocab, w.0, prefix, suffix, 0), w.1))
}

/// Saturating addition on `usize`.
pub open spec fn sat_add_usize(a: usize, b: usize) -> usize {
    if a + b > usize::MAX {
        usize::MAX
    } else {
        (a + b) as usize
    }
}

/// The total symbol count of the first `i` training words (saturating).
pub open spec fn total_ids(tws: Seq<(Seq<usize>, u64)>, i: int) -> usize
    decreases i,
{
    if i <= 0 {
        0
    } else {
        sat_add_usize(total_ids(tws, i - 1), tws[i - 1].0.len() as usize)
    }
}

/// `total_ids` reads only the first `i` entries.
proof fn lemma_total_ids_prefix(s1: Seq<(Seq<usize>, u64)>, s2: Seq<(Seq<usize>, u64)>, i: int)
    requires
        forall|k: int| 0 <= k < i ==> (#[trigger] s1[k]).0.len() == s2[k].0.len(),
    ensures
        total_ids(s1, i) == total_ids(s2, i),
    decreases i,
{
    if i > 0 {
        lemma_total_ids_prefix(s1, s2, i - 1);
    }
}

/// `ps` holds a count for the pair `(a, b)`.
pub open spec fn pc_has(ps: Seq<(usize, usize, u64)>, a: usize, b: usize) -> bool {
    exists|i: int| 0 <= i < ps.len() && ps[i].0 == a && ps[i].1 == b
}

/// The index of the count for `(a, b)` (unique under `pc_unique`).
pub open spec fn pc_index(ps: Seq<(usize, usize, u64)>, a: usize, b: usize) -> int {
    choose|i: int| 0 <= i < ps.len() && ps[i].0 == a && ps[i].1 == b
}

/// No pair has two counts.
pub open spec fn pc_unique(ps: Seq<(usize, usize, u64)>) -> bool {
    forall|i: int, j: int|
        0 <= i < j < ps.len() ==> !(ps[i].0 == ps[j].0 && ps[i].1 == ps[j].1)
}

/// Under uniqueness, `pc_index` recovers exactly the index a count stands
/// at.
pub proof fn lemma_pc_index(ps: Seq<(usize, usize, u64)>, i: int, a: usize, b: usize)
    requires
        pc_unique(ps),
        0 <= i < ps.len(),
        ps[i].0 == a && ps[i].1 == b,
    ensures
        pc_has(ps, a, b),
        pc_index(ps, a, b) == i,
{
    assert(pc_has(ps, a, b));
    let j = pc_index(ps, a, b);
    if j < i {
        assert(!(ps[j].0 == ps[i].0 && ps[j].1 == ps[i].1));
    } else if j > i {
        assert(!(ps[i].0 == ps[j].0 && ps[i].1 == ps[j].1));
    }
}

/// One adjacent-pair occurrence folded into the counts, weighted `cnt`.
pub open spec fn pair_add(ps: Seq<(usize, usize, u64)>, a: usize, b: usize, cnt: u64) -> Seq<
    (usize, usize, u64),
> {
    if pc_has(ps, a, b) {
        let i = pc_index(ps, a, b);
        ps.update(i, (a, b, sat_add(ps[i].2, cnt)))
    } else {
        ps.push((a, b, cnt))
    }
}

/// The counts after folding the adjacent pairs of `ids` from position `i`.
pub open spec fn count_word_pairs(
    ps: Seq<(usize, usize, u64)>,
    ids: Seq<usize>,
    cnt: u64,
    i: int,
) -> Seq<(usize, usize, u64)>
    decreases ids.len() - i,
{
    if i < 0 || i + 1 >= ids.len() {
        ps
    } else {
        count_word_pairs(pair_add(ps, ids[i], ids[i + 1], cnt), ids, cnt, i + 1)
    }
}

/// The counts after folding the training words from index `wi` on.
pub open spec fn count_pairs(
    tws: Seq<(Seq<usize>, u64)>,
    ps: Seq<(usize, usize, u64)>,
    wi: int,
) -> Seq<(usize, usize, u64)>
    decreases tws.len() - wi,
{
    if wi < 0 || wi >= tws.len() {
        ps
    } else {
        count_pairs(tws, count_word_pairs(ps, tws[wi].0, tws[wi].1, 0), wi + 1)
    }
}

/// `x` beats `y`: strictly more frequent, or equally frequent and the
/// lexicographically smaller id pair.
pub open spec fn better_pair(x: (usize, usize, u64), y: (usize, usize, u64)) -> bool {
    x.2 > y.2 || (x.2 == y.2 && (x.0 < y.0 || (x.0 == y.0 && x.1 < y.1)))
}

/// The best count's index among positions `>= i`, seeded with candidate
/// `b`.
pub open spec fn best_from_pairs(ps: Seq<(usize, usize, u64)>, i: int, b: int) -> int
    decreases ps.len() - i,
{
    if i < 0 || i >= ps.len() {
        b
    } else {
        best_from_pairs(
            ps,
            i + 1,
            if better_pair(ps[i], ps[b]) {
                i
            } else {
                b
            },
        )
    }
}

/// `ids` with every adjacent `(a, b)` occurrence from position `i` on
/// replaced by `new`, leftmost first.
pub open spec fn rewrite_from(ids: Seq<usize>, a: usize, b: usize, new: usize, i: int) -> Seq<
    usize,
>
    decreases ids.len() - i,
{
    if i < 0 || i >= ids.len() {
        Seq::<usize>::empty()
    } else if i + 1 < ids.len() && ids[i] == a && ids[i + 1] == b {
        seq![new] + rewrite_from(ids, a, b, new, i + 2)
    } else {
        seq![ids[i]] + rewrite_from(ids, a, b, new, i + 1)
    }
}

/// Every training word rewritten by one merge.
pub open spec fn rewrite_all(
    tws: Seq<(Seq<usize>, u64)>,
    a: usize,
    b: usize,
    new: usize,
) -> Seq<(Seq<usize>, u64)> {
    tws.map(|i: int, w: (Seq<usize>, u64)| (rewrite_from(w.0, a, b, new, 0), w.1))
}

/// The id `spec_add` gives a token: its existing id, or the next one.
pub open spec fn add_id(vocab: Seq<Seq<char>>, t: Seq<char>) -> usize {
    if has_token(vocab, t) {
        token_index(vocab, t) as usize
    } else {
        vocab.len() as usize
    }
}

/// The greedy minting loop: while the vocabulary is below the target and
/// some pair reaches the minimum frequency (at least 1), the best pair —
/// most frequent, ties to the smaller id pair — is minted as the
/// concatenation of its tokens, recorded under the next rank, and applied
/// to every training word.  `fuel` bounds the recursion by the total
/// symbol count; a merge that applies always removes a symbol, so the
/// bound never decides the result.
pub open spec fn mint(
    vocab: Seq<Seq<char>>,
    merges: Seq<MergeRule>,
    tws: Seq<(Seq<usize>, u64)>,
    target: usize,
    minf: u64,
    fuel: int,
) -> (Seq<Seq<char>>, Seq<MergeRule>)
    decreases fuel,
{
    if fuel <= 0 || vocab.len() >= target {
        (vocab, merges)
    } else {
        let ps = count_pairs(tws, Seq::<(usize, usize, u64)>::empty(), 0);
        if ps.len() == 0 {
            (vocab, merges)
        } else {
            let best = ps[best_from_pairs(ps, 1, 0)];
            let thresh: u64 = if minf > 0 {
                minf
            } else {
                1
            };
            if best.2 < thresh {
                (vocab, merges)
            } else {
                let newtok = vocab[best.0 as int] + vocab[best.1 as int];
                let nid = add_id(vocab, newtok);
                mint(
                    spec_add(vocab, newtok),
                    merges.push(MergeRule { left: best.0, right: best.1, new_id: nid }),
                    rewrite_all(tws, best.0, best.1, nid),
                    target,
                    minf,
                    fuel - 1,
                )
            }
        }
    }
}

/// What training yields, as a function of the configuration and the fed
/// word frequencies alone: the special tokens enter an empty vocabulary in
/// list order; the alphabet is observed over all words (position classes
/// and weighted counts), forced entries added, the cap applied; the
/// surviving records' rendered variants enter the vocabulary in record
/// order; every word becomes its symbol ids; and the minting loop learns
/// the merges.
pub open spec fn spec_train(
    words: Seq<(Seq<char>, u64)>,
    specials: Seq<Seq<char>>,
    target: usize,
    minf: u64,
    cap: Option<usize>,
    forced: Seq<Seq<char>>,
    prefix: Seq<char>,
    suffix: Seq<char>,
) -> (Seq<Seq<char>>, Seq<MergeRule>) {
    let v0 = add_all(Seq::<Seq<char>>::empty(), specials, specials.len() as int);
    let alpha = alpha_forced(alpha_scan(words, Seq::<AlphaRec>::empty(), 0), forced, 0);
    let alpha2 = match cap {
        Some(c) => capped(alpha, c),
        None => alpha,
    };
    let v1 = insert_alphabet(v0, alpha2, prefix, suffix, 0);
    let tws = all_word_ids(v1, words, prefix, suffix);
    mint(v1, Seq::<MergeRule>::empty(), tws, target, minf, total_ids(tws, tws.len() as int) as int)
}

/// One character of the observed alphabet: its frequency, the one-character
/// string it renders from, and the word positions it was seen at (those
/// decide which affixed variants enter the vocabulary).
struct CharInfo {
    ch: char,
    tok: String,
    count: u64,
    seen_alone: bool,
    seen_first: bool,
    seen_inner: bool,
    seen_last: bool,
}

/// The spec-level content of the working alphabet records.
spec fn ci_view(cis: Seq<CharInfo>) -> Seq<AlphaRec> {
    cis.map(
        |i: int, c: CharInfo|
            AlphaRec {
                ch: c.ch,
                count: c.count,
                seen_alone: c.seen_alone,
                seen_first: c.seen_first,
                seen_inner: c.seen_inner,
                seen_last: c.seen_last,
            },
    )
}

/// Each working record's token string is its character.
spec fn ci_wf(cis: Seq<CharInfo>) -> bool {
    forall|i: int| 0 <= i < cis.len() ==> (#[trigger] cis[i]).tok@ == seq![cis[i].ch]
}

/// The index of the record for `c`, when one exists.
fn find_char(alpha: &Vec<CharInfo>, c: char) -> (r: Option<usize>)
    requires
        alpha_unique(ci_view(alpha@)),
    ensures
        match r {
            Some(i) => i < alpha@.len() && alpha@[i as int].ch == c && alpha_has(
                ci_view(alpha@),
                c,
            ) && alpha_index(ci_view(alpha@), c) == i,
            None => !alpha_has(ci_view(alpha@), c),
        },
{
    let n = alpha.len();
    let mut fi: usize = 0;
    while fi < n
        invariant
            n == alpha@.len(),
            fi <= n,
            alpha_unique(ci_view(alpha@)),
            forall|k: int| 0 <= k < fi ==> ci_view(alpha@)[k].ch != c,
        decreases n - fi,
    {
        if alpha[fi].ch == c {
            proof {
                lemma_alpha_index(ci_view(alpha@), fi as int, c);
            }
            return Some(fi);
        }
        fi = fi + 1;
    }
    None
}

/// Folds one word's character occurrences into the working alphabet.
fn observe_word(alpha: &mut Vec<CharInfo>, word: &str, cnt: u64)
    requires
        alpha_unique(ci_view(old(alpha)@)),
        ci_wf(old(alpha)@),
    ensures
        alpha_unique(ci_view(final(alpha)@)),
        ci_wf(final(alpha)@),
        ci_view(final(alpha)@) == alpha_scan_word(ci_view(old(alpha)@), word@, cnt, 0),
{
    let wlen = word.unicode_len();
    let ghost entry = ci_view(alpha@);
    let ghost goal = alpha_scan_word(entry, word@, cnt, 0);
    for i in 0..wlen
        invariant
            wlen == word@.len(),
            alpha_unique(ci_view(alpha@)),
            ci_wf(alpha@),
            goal == alpha_scan_word(entry, word@, cnt, 0),
            alpha_scan_word(ci_view(alpha@), word@, cnt, i as int) == goal,
    {
        let c = word.get_char(i);
        let alone = wlen == 1;
        let first = i == 0 && wlen > 1;
        let last = i + 1 == wlen && wlen > 1;
        let inner = i > 0 && i + 1 < wlen;
        let ghost pre = ci_view(alpha@);
        match find_char(alpha, c) {
            Some(fi) => {
                let newc = alpha[fi].count.saturating_add(cnt);
                alpha[fi].count = newc;
                if alone {
                    alpha[fi].seen_alone = true;
                }
                if first {
                    alpha[fi].seen_first = true;
                }
                if last {
                    alpha[fi].seen_last = true;
                }
                if inner {
                    alpha[fi].seen_inner = true;
                }
                proof {
                    assert(ci_view(alpha@) =~= alpha_add(pre, c, cnt, alone, first, inner, last));
                    assert forall|a: int, b: int|
                        0 <= a < b < ci_view(alpha@).len() implies ci_view(alpha@)[a].ch
                        != ci_view(alpha@)[b].ch by {
                        assert(ci_view(alpha@)[a].ch == pre[a].ch);
                        assert(ci_view(alpha@)[b].ch == pre[b].ch);
                    }
                }
            },
            None => {
                let tok = word.substring_char(i, i + 1).to_owned();
                alpha.push(
                    CharInfo {
                        ch: c,
                        tok,
                        count: cnt,
                        seen_alone: alone,
                        seen_first: first,
                        seen_inner: inner,
                        seen_last: last,
                    },
                );
                proof {
                    assert(word@.subrange(i as int, i as int + 1) =~= seq![word@[i as int]]);
                    assert(ci_view(alpha@) =~= alpha_add(pre, c, cnt, alone, first, inner, last));
                    assert forall|a: int, b: int|
                        0 <= a < b < ci_view(alpha@).len() implies ci_view(alpha@)[a].ch
                        != ci_view(alpha@)[b].ch by {
                        if b < pre.len() {
                            assert(ci_view(alpha@)[a].ch == pre[a].ch);
                            assert(ci_view(alpha@)[b].ch == pre[b].ch);
                        } else {
                            assert(ci_view(alpha@)[a].ch == pre[a].ch);
                            assert(ci_view(alpha@)[b].ch == c);
                            if pre[a].ch == c {
                                assert(alpha_has(pre, c));
                            }
                        }
                    }
                }
            },
        }
        proof {
            assert(alpha_scan_word(ci_view(alpha@), word@, cnt, i + 1) == goal);
        }
    }
}

/// Forces one explicit initial-alphabet entry into the working alphabet.
fn force_one(alpha: &mut Vec<CharInfo>, s: &str)
    requires
        alpha_unique(ci_view(old(alpha)@)),
        ci_wf(old(alpha)@),
    ensures
        alpha_unique(ci_view(final(alpha)@)),
        ci_wf(final(alpha)@),
        ci_view(final(alpha)@) == alpha_force_one(ci_view(old(alpha)@), s@),
{
    let ghost pre = ci_view(alpha@);
    if s.unicode_len() > 0 {
        let c = s.get_char(0);
        match find_char(alpha, c) {
            Some(fi) => {
                alpha[fi].count = u64::MAX;
                alpha[fi].seen_first = true;
                proof {
                    assert(ci_view(alpha@) =~= alpha_force_one(pre, s@));
                    assert forall|a: int, b: int|
                        0 <= a < b < ci_view(alpha@).len() implies ci_view(alpha@)[a].ch
                        != ci_view(alpha@)[b].ch by {
                        assert(ci_view(alpha@)[a].ch == pre[a].ch);
                        assert(ci_view(alpha@)[b].ch == pre[b].ch);
                    }
                }
            },
            None => {
                let tok = s.substring_char(0, 1).to_owned();
                alpha.push(
                    CharInfo {
                        ch: c,
                        tok,
                        count: u64::MAX,
                        seen_alone: false,
                        seen_first: true,
                        seen_inner: false,
                        seen_last: false,
                    },
                );
                proof {
                    assert(s@.subrange(0, 1) =~= seq![s@[0]]);
                    assert(ci_view(alpha@) =~= alpha_force_one(pre, s@));
                    assert forall|a: int, b: int|
                        0 <= a < b < ci_view(alpha@).len() implies ci_view(alpha@)[a].ch
                        != ci_view(alpha@)[b].ch by {
                        if b < pre.len() {
                            assert(ci_view(alpha@)[a].ch == pre[a].ch);
                            assert(ci_view(alpha@)[b].ch == pre[b].ch);
                        } else {
                            assert(ci_view(alpha@)[a].ch == pre[a].ch);
                            if pre[a].ch == c {
                                assert(alpha_has(pre, c));
                            }
                        }
                    }
                }
            },
        }
    }
}

/// Applies the alphabet cap in place.
fn apply_cap(alpha: &mut Vec<CharInfo>, cap: usize)
    requires
        alpha_unique(ci_view(old(alpha)@)),
        ci_wf(old(alpha)@),
    ensures
        alpha_unique(ci_view(final(alpha)@)),
        ci_wf(final(alpha)@),
        ci_view(final(alpha)@) == capped(ci_view(old(alpha)@), cap),
{
    let ghost goal = capped(ci_view(alpha@), cap);
    while alpha.len() > cap
        invariant
            alpha_unique(ci_view(alpha@)),
            ci_wf(alpha@),
            capped(ci_view(alpha@), cap) == goal,
        decreases alpha@.len(),
    {
        let na = alpha.len();
        let mut worst: usize = 0;
        let mut fi: usize = 1;
        while fi < na
            invariant
                na == alpha@.len(),
                1 <= na,
                fi <= na,
                worst < na,
                worst_from(ci_view(alpha@), fi as int, worst as int) == worst_from(
                    ci_view(alpha@),
                    1,
                    0,
                ),
            decreases na - fi,
        {
            let wc = alpha[worst].count;
            let cc = alpha[fi].count;
            if cc < wc || (cc == wc && (alpha[fi].ch as u32) > (alpha[worst].ch as u32)) {
                worst = fi;
            }
            fi = fi + 1;
        }
        let ghost pre = ci_view(alpha@);
        alpha.remove(worst);
        proof {
            assert(ci_view(alpha@) =~= pre.remove(worst as int));
            assert(capped(pre, cap) == capped(pre.remove(worst_from(pre, 1, 0)), cap));
            assert forall|a: int, b: int|
                0 <= a < b < ci_view(alpha@).len() implies ci_view(alpha@)[a].ch != ci_view(
                alpha@,
            )[b].ch by {
                let w = worst as int;
                let pa = if a < w {
                    a
                } else {
                    a + 1
                };
                let pb = if b < w {
                    b
                } else {
                    b + 1
                };
                assert(ci_view(alpha@)[a].ch == pre[pa].ch);
                assert(ci_view(alpha@)[b].ch == pre[pb].ch);
            }
        }
    }
}

/// Inserts every surviving alphabet record's rendered variants into the
/// vocabulary, in record order.
fn insert_alphabet_exec(
    vocab: &mut Vocabulary,
    alpha: &Vec<CharInfo>,
    prefix: &String,
    suffix: &String,
)
    requires
        old(vocab).wf(),
        ci_wf(alpha@),
    ensures
        final(vocab).wf(),
        final(vocab)@ == insert_alphabet(old(vocab)@, ci_view(alpha@), prefix@, suffix@, 0),
        seq_extends(final(vocab)@, old(vocab)@),
{
    let na = alpha.len();
    let ghost entry = vocab@;
    let ghost av = ci_view(alpha@);
    let ghost goal = insert_alphabet(entry, av, prefix@, suffix@, 0);
    for ai in 0..na
        invariant
            na == alpha@.len(),
            vocab.wf(),
            ci_wf(alpha@),
            av == ci_view(alpha@),
            goal == insert_alphabet(entry, av, prefix@, suffix@, 0),
            insert_alphabet(vocab@, av, prefix@, suffix@, ai as int) == goal,
            seq_extends(vocab@, entry),
    {
        let ghost pre = vocab@;
        let ghost r = av[ai as int];
        assert(alpha@[ai as int].tok@ == seq![r.ch]);
        if alpha[ai].seen_first {
            vocab.add(alpha[ai].tok.as_str());
        }
        let ghost v1 = vocab@;
        assert(v1 == (if r.seen_first {
            spec_add(pre, seq![r.ch])
        } else {
            pre
        }));
        if alpha[ai].seen_alone {
            let t = alpha[ai].tok.clone().concat(suffix.as_str());
            assert(t@ == seq![r.ch] + suffix@);
            vocab.add(t.as_str());
        }
        let ghost v2 = vocab@;
        assert(v2 == (if r.seen_alone {
            spec_add(v1, seq![r.ch] + suffix@)
        } else {
            v1
        }));
        if alpha[ai].seen_inner {
            let t = prefix.clone().concat(alpha[ai].tok.as_str());
            assert(t@ == prefix@ + seq![r.ch]);
            vocab.add(t.as_str());
        }
        let ghost v3 = vocab@;
        assert(v3 == (if r.seen_inner {
            spec_add(v2, prefix@ + seq![r.ch])
        } else {
            v2
        }));
        if alpha[ai].seen_last {
            let t = prefix.clone().concat(alpha[ai].tok.as_str()).concat(suffix.as_str());
            assert(t@ =~= prefix@ + seq![r.ch] + suffix@);
            vocab.add(t.as_str());
        }
        proof {
            assert(vocab@ == (if r.seen_last {
                spec_add(v3, prefix@ + seq![r.ch] + suffix@)
            } else {
                v3
            }));
            assert(vocab@ == insert_rec(pre, r, prefix@, suffix@));
            assert(seq_extends(vocab@, pre));
            assert(seq_extends(vocab@, entry));
        }
    }
}

/// The symbol ids of one word over the vocabulary, renders out of the
/// vocabulary dropped.
fn build_word_ids(vocab: &Vocabulary, word: &str, prefix: &String, suffix: &String) -> (r: Vec<
    usize,
>)
    requires
        vocab.wf(),
    ensures
        r@ == word_ids(vocab@, word@, prefix@, suffix@, 0),
        forall|j: int| 0 <= j < r@.len() ==> (#[trigger] r@[j]) < vocab@.len(),
{
    let wlen = word.unicode_len();
    let mut ids: Vec<usize> = Vec::new();
    let ghost goal = word_ids(vocab@, word@, prefix@, suffix@, 0);
    for i in 0..wlen
        invariant
            wlen == word@.len(),
            vocab.wf(),
            goal == word_ids(vocab@, word@, prefix@, suffix@, 0),
            goal == ids@ + word_ids(vocab@, word@, prefix@, suffix@, i as int),
            forall|j: int| 0 <= j < ids@.len() ==> (#[trigger] ids@[j]) < vocab@.len(),
    {
        let piece = word.substring_char(i, i + 1);
        let mut rendered = if i > 0 {
            prefix.clone()
        } else {
            String::new()
        };
        rendered.append(piece);
        if i + 1 == wlen {
            rendered.append(suffix.as_str());
        }
        assert(rendered@ == render_at(word@, i as int, prefix@, suffix@));
        match vocab.get_id(rendered.as_str()) {
            Some(id) => {
                proof {
                    lemma_token_index(vocab@, id as int, rendered@);
                }
                ids.push(id);
                assert(ids@ + word_ids(vocab@, word@, prefix@, suffix@, i + 1) =~= goal);
            },
            None => {},
        }
    }
    assert(word_ids(vocab@, word@, prefix@, suffix@, wlen as int) =~= Seq::<usize>::empty());
    assert(ids@ =~= goal);
    ids
}

/// The index of the count for `(a, b)`, when one exists.
fn find_pair(pairs: &Vec<PairCount>, a: usize, b: usize) -> (r: Option<usize>)
    requires
        pc_unique(pc_view(pairs@)),
    ensures
        match r {
            Some(i) => i < pairs@.len() && pairs@[i as int].a == a && pairs@[i as int].b == b
                && pc_has(pc_view(pairs@), a, b) && pc_index(pc_view(pairs@), a, b) == i,
            None => !pc_has(pc_view(pairs@), a, b),
        },
{
    let n = pairs.len();
    let mut fi: usize = 0;
    while fi < n
        invariant
            n == pairs@.len(),
            fi <= n,
            pc_unique(pc_view(pairs@)),
            forall|k: int|
                0 <= k < fi ==> !(pc_view(pairs@)[k].0 == a && pc_view(pairs@)[k].1 == b),
        decreases n - fi,
    {
        if pairs[fi].a == a && pairs[fi].b == b {
            proof {
                lemma_pc_index(pc_view(pairs@), fi as int, a, b);
            }
            return Some(fi);
        }
        fi = fi + 1;
    }
    None
}

/// The spec-level content of the working pair counts.
spec fn pc_view(ps: Seq<PairCount>) -> Seq<(usize, usize, u64)> {
    ps.map(|i: int, p: PairCount| (p.a, p.b, p.count))
}

/// The spec-level content of the training words.
spec fn tw_view(tws: Seq<TrainWord>) -> Seq<(Seq<usize>, u64)> {
    tws.map(|i: int, w: TrainWord| (w.ids@, w.count))
}

/// Counts every adjacent pair over all training words, weighted by word
/// frequency.
fn count_pairs_exec(twords: &Vec<TrainWord>, Ghost(vlen): Ghost<int>) -> (r: Vec<PairCount>)
    requires
        twords_ok(twords@, vlen),
    ensures
        pc_view(r@) == count_pairs(tw_view(twords@), Seq::<(usize, usize, u64)>::empty(), 0),
        pc_unique(pc_view(r@)),
        forall|k: int| 0 <= k < r@.len() ==> (#[trigger] r@[k]).a < vlen && r@[k].b < vlen,
{
    let mut pairs: Vec<PairCount> = Vec::new();
    let ntw = twords.len();
    let ghost twv = tw_view(twords@);
    let ghost goal = count_pairs(twv, Seq::<(usize, usize, u64)>::empty(), 0);
    assert(pc_view(pairs@) =~= Seq::<(usize, usize, u64)>::empty());
    for wi in 0..ntw
        invariant
            ntw == twords@.len(),
            twv == tw_view(twords@),
            twords_ok(twords@, vlen),
            goal == count_pairs(twv, Seq::<(usize, usize, u64)>::empty(), 0),
            count_pairs(twv, pc_view(pairs@), wi as int) == goal,
            pc_unique(pc_view(pairs@)),
            forall|k: int|
                0 <= k < pairs@.len() ==> (#[trigger] pairs@[k]).a < vlen && pairs@[k].b < vlen,
    {
        let wl = twords[wi].ids.len();
        let wcount = twords[wi].count;
        let ghost ids = twv[wi as int].0;
        assert(ids == twords@[wi as int].ids@ && wcount == twv[wi as int].1);
        let mut p: usize = 0;
        let stop = if wl == 0 {
            0
        } else {
            wl - 1
        };
        while p < stop
            invariant
                wl == ids.len(),
                ids == twords@[wi as int].ids@,
                wi < ntw == twords@.len(),
                p <= wl,
                stop == (if wl == 0 {
                    0int
                } else {
                    wl - 1
                }),
                wcount == twv[wi as int].1,
                twords_ok(twords@, vlen),
                count_pairs(twv, count_word_pairs(pc_view(pairs@), ids, wcount, p as int), wi + 1)
                    == goal,
                pc_unique(pc_view(pairs@)),
                forall|k: int|
                    0 <= k < pairs@.len() ==> (#[trigger] pairs@[k]).a < vlen && pairs@[k].b
                        < vlen,
            decreases wl - p,
        {
            let a = twords[wi].ids[p];
            let b = twords[wi].ids[p + 1];
            let ghost pre = pc_view(pairs@);
            match find_pair(&pairs, a, b) {
                Some(fi) => {
                    let newc = pairs[fi].count.saturating_add(wcount);
                    pairs[fi].count = newc;
                    proof {
                        assert(pc_view(pairs@) =~= pair_add(pre, a, b, wcount));
                        assert forall|x: int, y: int|
                            0 <= x < y < pc_view(pairs@).len() implies !(pc_view(pairs@)[x].0
                            == pc_view(pairs@)[y].0 && pc_view(pairs@)[x].1 == pc_view(
                            pairs@,
                        )[y].1) by {
                            assert(pc_view(pairs@)[x].0 == pre[x].0 && pc_view(pairs@)[x].1
                                == pre[x].1);
                            assert(pc_view(pairs@)[y].0 == pre[y].0 && pc_view(pairs@)[y].1
                                == pre[y].1);
                        }
                    }
                },
                None => {
                    pairs.push(PairCount { a, b, count: wcount });
                    proof {
                        assert(pc_view(pairs@) =~= pair_add(pre, a, b, wcount));
                        assert forall|x: int, y: int|
                            0 <= x < y < pc_view(pairs@).len() implies !(pc_view(pairs@)[x].0
                            == pc_view(pairs@)[y].0 && pc_view(pairs@)[x].1 == pc_view(
                            pairs@,
                        )[y].1) by {
                            if y < pre.len() {
                                assert(pc_view(pairs@)[x] == pre[x] && pc_view(pairs@)[y]
                                    == pre[y]);
                            } else {
                                assert(pc_view(pairs@)[x] == pre[x]);
                                if pre[x].0 == a && pre[x].1 == b {
                                    assert(pc_has(pre, a, b));
                                }
                            }
                        }
                    }
                },
            }
            p = p + 1;
        }
    }
    pairs
}

/// The index of the best pair: most frequent, ties to the smaller id
/// pair.
fn best_pair_index(pairs: &Vec<PairCount>) -> (r: usize)
    requires
        pairs@.len() > 0,
    ensures
        r < pairs@.len(),
        r as int == best_from_pairs(pc_view(pairs@), 1, 0),
{
    let np = pairs.len();
    let mut bi: usize = 0;
    let mut fi: usize = 1;
    while fi < np
        invariant
            np == pairs@.len(),
            1 <= np,
            fi <= np,
            bi < np,
            best_from_pairs(pc_view(pairs@), fi as int, bi as int) == best_from_pairs(
                pc_view(pairs@),
                1,
                0,
            ),
        decreases np - fi,
    {
        let bc = pairs[bi].count;
        let cc = pairs[fi].count;
        if cc > bc || (cc == bc && (pairs[fi].a < pairs[bi].a || (pairs[fi].a == pairs[bi].a
            && pairs[fi].b < pairs[bi].b))) {
            bi = fi;
        }
        fi = fi + 1;
    }
    bi
}

/// One word rewritten by one merge, leftmost occurrences first.
fn rewrite_word_exec(
    ids: &Vec<usize>,
    a: usize,
    b: usize,
    new_id: usize,
    Ghost(vlen): Ghost<int>,
)-> (r: Vec<usize>)
    requires
        forall|j: int| 0 <= j < ids@.len() ==> (#[trigger] ids@[j]) < vlen,
        new_id < vlen,
    ensures
        r@ == rewrite_from(ids@, a, b, new_id, 0),
        forall|j: int| 0 <= j < r@.len() ==> (#[trigger] r@[j]) < vlen,
{
    let wl = ids.len();
    let mut out: Vec<usize> = Vec::new();
    let ghost goal = rewrite_from(ids@, a, b, new_id, 0);
    let mut p: usize = 0;
    while p < wl
        invariant
            wl == ids@.len(),
            p <= wl,
            goal == rewrite_from(ids@, a, b, new_id, 0),
            goal == out@ + rewrite_from(ids@, a, b, new_id, p as int),
            forall|j: int| 0 <= j < ids@.len() ==> (#[trigger] ids@[j]) < vlen,
            new_id < vlen,
            forall|j: int| 0 <= j < out@.len() ==> (#[trigger] out@[j]) < vlen,
        decreases wl - p,
    {
        if p + 1 < wl && ids[p] == a && ids[p + 1] == b {
            out.push(new_id);
            assert(out@ + rewrite_from(ids@, a, b, new_id, p + 2) =~= goal);
            p = p + 2;
        } else {
            out.push(ids[p]);
            assert(out@ + rewrite_from(ids@, a, b, new_id, p + 1) =~= goal);
            p = p + 1;
        }
    }
    assert(out@ =~= goal);
    out
}

/// One training word as current symbol ids, with its corpus frequency.
struct TrainWord {
    ids: Vec<usize>,
    count: u64,
}

/// One adjacent pair with its accumulated weighted frequency.
struct PairCount {
    a: usize,
    b: usize,
    count: u64,
}

/// All symbol ids of every training word are valid for a vocabulary of
/// `vlen` tokens.
spec fn twords_ok(tws: Seq<TrainWord>, vlen: int) -> bool {
    forall|i: int, j: int|
        0 <= i < tws.len() && 0 <= j < tws[i].ids@.len() ==> #[trigger] (tws[i].ids@[j]) < vlen
}

/// The result of training: a populated vocabulary and the learned merge
/// table, ready to be assigned into a model.
pub struct TrainOutput {
    pub vocab: Vocabulary,
    pub merges: MergeTable,
}

impl BpeTrainer {
    /// Learns a vocabulary and merge table from the accumulated
    /// frequencies.  Special tokens are inserted first (lowest ids, in
    /// list order), then the surviving alphabet in first-occurrence order
    /// (each rendered variant that occurs), then merges are minted by
    /// descending pair frequency — ties broken by the smaller id pair —
    /// until the target size is reached or no pair reaches the minimum
    /// frequency.  An empty corpus yields just specials and forced
    /// alphabet, with no merges; a target smaller than that base is left
    /// as the base, again with no merges.
    pub fn train(&self) -> (out: TrainOutput)
        requires
            self.wf(),
        ensures
            out.vocab.wf(),
            table_ok(out.merges@, out.vocab@),
            forall|i: int|
                0 <= i < self.specials_view().len() ==> has_token(
                    out.vocab@,
                    #[trigger] self.specials_view()[i],
                ),
            tokens_unique(self.specials_view()) ==> (self.specials_view().len()
                <= out.vocab@.len() && forall|i: int|
                0 <= i < self.specials_view().len() ==> out.vocab@[i]
                    == #[trigger] self.specials_view()[i]),
            out.vocab@.len() > self.vocab_size_view() ==> out.merges@.len() == 0,
            ({
                let sr = spec_train(
                    self.words_view(),
                    self.specials_view(),
                    self.vocab_size_view(),
                    self.min_frequency_view(),
                    self.limit_alphabet_view(),
                    self.initial_alphabet_view(),
                    self.prefix_view(),
                    self.suffix_view(),
                );
                out.vocab@ == sr.0 && out.merges@ == sr.1
            }),
    {
        let mut vocab = Vocabulary::new();
        let mut merges = MergeTable::new();
        assert(vocab@ =~= Seq::<Seq<char>>::empty());

        // Special tokens get the lowest ids, in list order.
        let ns = self.special_tokens.len();
        for i in 0..ns
            invariant
                vocab.wf(),
                ns == self.special_tokens@.len(),
                vocab@ == add_all(Seq::<Seq<char>>::empty(), self.specials_view(), i as int),
                forall|k: int|
                    0 <= k < i ==> has_token(vocab@, #[trigger] self.specials_view()[k]),
                tokens_unique(self.specials_view()) ==> vocab@ =~= self.specials_view().take(
                    i as int,
                ),
        {
            let ghost before = vocab@;
            vocab.add(self.special_tokens[i].content.as_str());
            proof {
                assert(vocab@ == spec_add(before, self.specials_view()[i as int]));
                assert(seq_extends(vocab@, before));
                assert forall|k: int| 0 <= k < i + 1 implies has_token(
                    vocab@,
                    #[trigger] self.specials_view()[k],
                ) by {
                    if k < i {
                        lemma_has_token_extends(vocab@, before, self.specials_view()[k]);
                    } else {
                        assert(self.specials_view()[k] == self.special_tokens@[k].content@);
                    }
                }
                if tokens_unique(self.specials_view()) {
                    if has_token(before, self.specials_view()[i as int]) {
                        let k = token_index(before, self.specials_view()[i as int]);
                        assert(self.specials_view().take(i as int)[k] == self.specials_view()[k]);
                        assert(false);
                    }
                    assert(vocab@ =~= self.specials_view().take(i + 1));
                }
            }
        }
        let ghost with_specials = vocab@;
        proof {
            assert(with_specials == add_all(
                Seq::<Seq<char>>::empty(),
                self.specials_view(),
                self.specials_view().len() as int,
            ));
            if tokens_unique(self.specials_view()) {
                assert(self.specials_view().take(ns as int) =~= self.specials_view());
            }
        }

        // Observe the alphabet over the whole corpus.
        let mut alpha: Vec<CharInfo> = Vec::new();
        assert(ci_view(alpha@) =~= Seq::<AlphaRec>::empty());
        let nw = self.words.len();
        for wi in 0..nw
            invariant
                nw == self.words@.len(),
                alpha_unique(ci_view(alpha@)),
                ci_wf(alpha@),
                alpha_scan(self.words_view(), ci_view(alpha@), wi as int) == alpha_scan(
                    self.words_view(),
                    Seq::<AlphaRec>::empty(),
                    0,
                ),
        {
            let ghost pre = ci_view(alpha@);
            observe_word(&mut alpha, self.words[wi].word.as_str(), self.words[wi].count);
            proof {
                assert(self.words_view()[wi as int].0 == self.words@[wi as int].word@);
                assert(self.words_view()[wi as int].1 == self.words@[wi as int].count);
                assert(alpha_scan(self.words_view(), ci_view(alpha@), wi + 1) == alpha_scan(
                    self.words_view(),
                    pre,
                    wi as int,
                ));
            }
        }
        let ghost scanned = ci_view(alpha@);
        proof {
            assert(scanned == alpha_scan(self.words_view(), Seq::<AlphaRec>::empty(), 0));
        }

        // Force-include the explicit initial alphabet, immune to the cap.
        let nf = self.initial_alphabet.len();
        for i in 0..nf
            invariant
                nf == self.initial_alphabet@.len(),
                alpha_unique(ci_view(alpha@)),
                ci_wf(alpha@),
                alpha_forced(ci_view(alpha@), self.initial_alphabet_view(), i as int)
                    == alpha_forced(scanned, self.initial_alphabet_view(), 0),
        {
            let ghost pre = ci_view(alpha@);
            force_one(&mut alpha, self.initial_alphabet[i].as_str());
            proof {
                assert(self.initial_alphabet_view()[i as int] == self.initial_alphabet@[i as int]@);
                assert(alpha_forced(ci_view(alpha@), self.initial_alphabet_view(), i + 1)
                    == alpha_forced(pre, self.initial_alphabet_view(), i as int));
            }
        }
        let ghost forced_alpha = ci_view(alpha@);
        proof {
            assert(forced_alpha == alpha_forced(scanned, self.initial_alphabet_view(), 0));
        }

        // Apply the alphabet cap.
        match self.limit_alphabet {
            Some(cap) => {
                apply_cap(&mut alpha, cap);
            },
            None => {},
        }
        let ghost alpha2 = ci_view(alpha@);
        proof {
            assert(alpha2 == (match self.limit_alphabet_view() {
                Some(c) => capped(forced_alpha, c),
                None => forced_alpha,
            }));
        }

        // Insert the surviving alphabet's rendered variants.
        insert_alphabet_exec(
            &mut vocab,
            &alpha,
            &self.continuing_subword_prefix,
            &self.end_of_word_suffix,
        );
        let ghost v1 = vocab@;
        proof {
            assert(v1 == insert_alphabet(
                with_specials,
                alpha2,
                self.prefix_view(),
                self.suffix_view(),
                0,
            ));
        }

        // Represent every corpus word as symbol ids over this vocabulary.
        let mut twords: Vec<TrainWord> = Vec::new();
        let mut total: usize = 0;
        for wi in 0..nw
            invariant
                nw == self.words@.len(),
                vocab.wf(),
                vocab@ == v1,
                twords@.len() == wi,
                forall|k: int|
                    0 <= k < wi ==> #[trigger] tw_view(twords@)[k] == (word_ids(
                        v1,
                        self.words_view()[k].0,
                        self.prefix_view(),
                        self.suffix_view(),
                        0,
                    ), self.words_view()[k].1),
                total == total_ids(tw_view(twords@), wi as int),
                twords_ok(twords@, vocab@.len() as int),
        {
            let ids = build_word_ids(
                &vocab,
                self.words[wi].word.as_str(),
                &self.continuing_subword_prefix,
                &self.end_of_word_suffix,
            );
            let ghost pre_total = total;
            let ghost pre_tw = tw_view(twords@);
            let idlen = ids.len();
            total = total.saturating_add(idlen);
            twords.push(TrainWord { ids, count: self.words[wi].count });
            proof {
                assert(total == sat_add_usize(pre_total, idlen));
                assert(self.words_view()[wi as int].0 == self.words@[wi as int].word@);
                assert(self.words_view()[wi as int].1 == self.words@[wi as int].count);
                assert(tw_view(twords@) =~= pre_tw.push(
                    (word_ids(
                        v1,
                        self.words_view()[wi as int].0,
                        self.prefix_view(),
                        self.suffix_view(),
                        0,
                    ), self.words_view()[wi as int].1),
                ));
                assert forall|k: int| 0 <= k < wi + 1 implies #[trigger] tw_view(twords@)[k]
                    == (word_ids(
                    v1,
                    self.words_view()[k].0,
                    self.prefix_view(),
                    self.suffix_view(),
                    0,
                ), self.words_view()[k].1) by {
                    if k < wi {
                        assert(tw_view(twords@)[k] == pre_tw[k]);
                    }
                }
                assert(total_ids(tw_view(twords@), wi + 1) == sat_add_usize(
                    total_ids(tw_view(twords@), wi as int),
                    tw_view(twords@)[wi as int].0.len() as usize,
                ));
                lemma_total_ids_prefix(tw_view(twords@), pre_tw, wi as int);
                assert(total_ids(tw_view(twords@), wi as int) == total_ids(pre_tw, wi as int));
            }
        }
        let ghost tws0 = tw_view(twords@);
        proof {
            assert(tws0 =~= all_word_ids(
                v1,
                self.words_view(),
                self.prefix_view(),
                self.suffix_view(),
            ));
            assert(total == total_ids(tws0, tws0.len() as int));
        }

        // Mint merges greedily.  `fuel` bounds the loop by the total symbol
        // count: every applied merge removes at least one symbol, so the
        // bound never binds; it only makes termination a local argument.
        let ghost goal = mint(
            vocab@,
            merges@,
            tws0,
            self.vocab_size,
            self.min_frequency,
            total as int,
        );
        let mut fuel = total;
        let mut done = false;
        while !done
            invariant
                vocab.wf(),
                table_ok(merges@, vocab@),
                twords_ok(twords@, vocab@.len() as int),
                seq_extends(vocab@, with_specials),
                merges@.len() > 0 ==> vocab@.len() <= self.vocab_size,
                mint(
                    vocab@,
                    merges@,
                    tw_view(twords@),
                    self.vocab_size,
                    self.min_frequency,
                    fuel as int,
                ) == goal,
                done ==> goal == (vocab@, merges@),
            decreases fuel, (if done {
                0int
            } else {
                1int
            }),
        {
            if vocab.len() >= self.vocab_size || fuel == 0 {
                done = true;
            } else {
                let pairs = count_pairs_exec(&twords, Ghost(vocab@.len() as int));
                if pairs.len() == 0 {
                    proof {
                        assert(pc_view(pairs@).len() == 0);
                    }
                    done = true;
                } else {
                    let bi = best_pair_index(&pairs);
                    let best_a = pairs[bi].a;
                    let best_b = pairs[bi].b;
                    let best_count = pairs[bi].count;
                    proof {
                        let ps = count_pairs(
                            tw_view(twords@),
                            Seq::<(usize, usize, u64)>::empty(),
                            0,
                        );
                        assert(ps[best_from_pairs(ps, 1, 0)] == (best_a, best_b, best_count));
                    }
                    let threshold = if self.min_frequency > 0 {
                        self.min_frequency
                    } else {
                        1
                    };
                    if best_count < threshold {
                        done = true;
                    } else {
                        // Mint the merged token and record the rule.
                        let ta = match vocab.get_token(best_a) {
                            Some(t) => t,
                            None => {
                                proof {
                                    assert(false);
                                }
                                String::new()
                            },
                        };
                        let tb = match vocab.get_token(best_b) {
                            Some(t) => t,
                            None => {
                                proof {
                                    assert(false);
                                }
                                String::new()
                            },
                        };
                        let new_tok = ta.concat(tb.as_str());
                        let ghost before = vocab@;
                        let new_id = vocab.add(new_tok.as_str());
                        let rule = MergeRule { left: best_a, right: best_b, new_id };
                        proof {
                            assert(new_tok@ == before[best_a as int] + before[best_b as int]);
                            assert(vocab@ == spec_add(before, new_tok@));
                            assert(seq_extends(vocab@, before));
                            assert(seq_extends(vocab@, with_specials));
                            if has_token(before, new_tok@) {
                                lemma_token_index(before, new_id as int, new_tok@);
                            }
                            assert(new_id == add_id(before, new_tok@));
                            lemma_table_ok_extends(merges@, before, vocab@);
                            assert(crate::merges::rule_ok(rule, vocab@));
                        }
                        merges.push_rule(rule);
                        proof {
                            assert forall|k: int| 0 <= k < merges@.len() implies #[trigger]
                            crate::merges::rule_ok(merges@[k], vocab@) by {}
                        }
                        // Apply the merge to every training word.
                        let ntw2 = twords.len();
                        let ghost pre_tws = tw_view(twords@);
                        for wi in 0..ntw2
                            invariant
                                ntw2 == twords@.len(),
                                vocab.wf(),
                                new_id < vocab@.len(),
                                twords_ok(twords@, vocab@.len() as int),
                                forall|k: int|
                                    0 <= k < wi ==> #[trigger] tw_view(twords@)[k] == (
                                    rewrite_from(pre_tws[k].0, best_a, best_b, new_id, 0),
                                    pre_tws[k].1,
                                    ),
                                forall|k: int|
                                    wi <= k < ntw2 ==> #[trigger] tw_view(twords@)[k]
                                        == pre_tws[k],
                        {
                            let newids = rewrite_word_exec(
                                &twords[wi].ids,
                                best_a,
                                best_b,
                                new_id,
                                Ghost(vocab@.len() as int),
                            );
                            let ghost pre_here = tw_view(twords@);
                            twords[wi].ids = newids;
                            proof {
                                assert forall|k: int|
                                    0 <= k < ntw2 && k != wi implies #[trigger] tw_view(
                                    twords@,
                                )[k] == pre_here[k] by {
                                    assert(twords@[k] == twords@[k]);
                                }
                                assert(pre_here[wi as int] == pre_tws[wi as int]);
                                assert(twords@[wi as int].ids@ == rewrite_from(
                                    pre_tws[wi as int].0,
                                    best_a,
                                    best_b,
                                    new_id,
                                    0,
                                ));
                                assert(tw_view(twords@)[wi as int] == (rewrite_from(
                                    pre_tws[wi as int].0,
                                    best_a,
                                    best_b,
                                    new_id,
                                    0,
                                ), pre_tws[wi as int].1));
                                assert forall|i: int, j: int|
                                    0 <= i < twords@.len() && 0 <= j < twords@[i].ids@.len()
                                        implies #[trigger] (twords@[i].ids@[j])
                                        < vocab@.len() by {
                                    assert(tw_view(twords@)[i].0 == twords@[i].ids@);
                                    if i < wi {
                                        assert(tw_view(twords@)[i] == (rewrite_from(
                                            pre_tws[i].0,
                                            best_a,
                                            best_b,
                                            new_id,
                                            0,
                                        ), pre_tws[i].1));
                                    } else if i == wi {
                                    } else {
                                        assert(tw_view(twords@)[i] == pre_tws[i]);
                                    }
                                }
                            }
                        }
                        proof {
                            assert(tw_view(twords@) =~= rewrite_all(
                                pre_tws,
                                best_a,
                                best_b,
                                new_id,
                            ));
                        }
                        fuel = fuel - 1;
                    }
                }
            }
        }
        proof {
            assert(goal == (vocab@, merges@));
            assert(goal == ({
                let sr = spec_train(
                    self.words_view(),
                    self.specials_view(),
                    self.vocab_size_view(),
                    self.min_frequency_view(),
                    self.limit_alphabet_view(),
                    self.initial_alphabet_view(),
                    self.prefix_view(),
                    self.suffix_view(),
                );
                sr
            }));
            assert forall|i: int| 0 <= i < self.specials_view().len() implies has_token(
                vocab@,
                #[trigger] self.specials_view()[i],
            ) by {
                lemma_has_token_extends(vocab@, with_specials, self.specials_view()[i]);
            }
            if tokens_unique(self.specials_view()) {
                assert forall|i: int| 0 <= i < self.specials_view().len() implies vocab@[i]
                    == #[trigger] self.specials_view()[i] by {
                    assert(vocab@[i] == with_specials[i]);
                }
            }
        }
        TrainOutput { vocab, merges }
    }
}

/// Updating the found entry yields the fed table, pointwise.
proof fn lemma_feed_found(
    pre: Seq<(Seq<char>, u64)>,
    j: int,
    w: Seq<char>,
    count: u64,
    post: Seq<(Seq<char>, u64)>,
)
    requires
        words_unique(pre),
        0 <= j < pre.len(),
        pre[j].0 == w,
        word_index(pre, w) == j,
        post == pre.update(j, (w, sat_add(pre[j].1, count))),
    ensures
        words_unique(post),
        post == spec_feed(pre, w, count),
        forall|x: Seq<char>| #[trigger]
            freq_of(post, x) == (if x == w {
                sat_add(freq_of(pre, x), count)
            } else {
                freq_of(pre, x)
            }),
{
    assert(forall|k: int| 0 <= k < post.len() ==> (#[trigger] post[k]).0 == pre[k].0);
    assert forall|x: Seq<char>| #[trigger]
        freq_of(post, x) == (if x == w {
            sat_add(freq_of(pre, x), count)
        } else {
            freq_of(pre, x)
        }) by {
        if has_word(pre, x) {
            let i = word_index(pre, x);
            assert(pre[i].0 == x);
            assert(post[i].0 == x);
            lemma_word_index(post, i, x);
            lemma_word_index(pre, i, x);
        } else {
            if has_word(post, x) {
                let i = word_index(post, x);
                assert(pre[i].0 == x);
            }
        }
    }
}

/// Appending a fresh entry yields the fed table, pointwise.
proof fn lemma_feed_appended(
    pre: Seq<(Seq<char>, u64)>,
    w: Seq<char>,
    count: u64,
    post: Seq<(Seq<char>, u64)>,
)
    requires
        words_unique(pre),
        !has_word(pre, w),
        post == pre.push((w, count)),
    ensures
        words_unique(post),
        post == spec_feed(pre, w, count),
        forall|x: Seq<char>| #[trigger]
            freq_of(post, x) == (if x == w {
                sat_add(freq_of(pre, x), count)
            } else {
                freq_of(pre, x)
            }),
{
    assert(post[pre.len() as int].0 == w);
    assert forall|i: int, j: int| 0 <= i < j < post.len() implies post[i].0 != post[j].0 by {
        if j < pre.len() {
            assert(post[i].0 == pre[i].0 && post[j].0 == pre[j].0);
        } else {
            assert(post[i].0 == pre[i].0);
            if post[i].0 == w {
                assert(has_word(pre, w));
            }
        }
    }
    assert forall|x: Seq<char>| #[trigger]
        freq_of(post, x) == (if x == w {
            sat_add(freq_of(pre, x), count)
        } else {
            freq_of(pre, x)
        }) by {
        if x == w {
            lemma_word_index(post, pre.len() as int, w);
            assert(freq_of(post, w) == count);
            assert(sat_add(0, count) == count);
        } else {
            if has_word(pre, x) {
                let i = word_index(pre, x);
                assert(post[i].0 == x);
                lemma_word_index(post, i, x);
                lemma_word_index(pre, i, x);
            } else {
                if has_word(post, x) {
                    let i = word_index(post, x);
                    if i < pre.len() {
                        assert(pre[i].0 == x);
                    }
                }
            }
        }
    }
}

} // verus!
