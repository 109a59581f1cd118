use bpe_core::BpeError;
use bpe_core::added::{AddedToken, AddedTokenRegistry};
use bpe_core::merges::{MergePair, MergeTable};
use bpe_core::model::BpeModel;
use bpe_core::trainer::BpeTrainer;
use bpe_core::vocab::Vocabulary;

fn vocab_of(tokens: &[&str]) -> Vocabulary {
    let owned: Vec<String> = tokens.iter().map(|t| t.to_string()).collect();
    Vocabulary::from_tokens(owned).expect("vocabulary must build")
}

fn pairs_of(pairs: &[(&str, &str)]) -> Vec<MergePair> {
    pairs
        .iter()
        .map(|(l, r)| MergePair { left: l.to_string(), right: r.to_string() })
        .collect()
}

fn simple_model(tokens: &[&str], merges: &[(&str, &str)]) -> BpeModel {
    BpeModel::new(
        Some(vocab_of(tokens)),
        Some(pairs_of(merges)),
        None,
        None,
        None,
        None,
        None,
        None,
    )
    .expect("model must build")
}

fn token_values(model: &mut BpeModel, word: &str) -> Vec<String> {
    model
        .tokenize(word)
        .expect("tokenize must succeed")
        .into_iter()
        .map(|t| t.value)
        .collect()
}

#[test]
fn vocabulary_add_is_idempotent() {
    let mut v = Vocabulary::new();
    let a = v.add("hello");
    let b = v.add("world");
    let a2 = v.add("hello");
    assert_eq!(a, 0);
    assert_eq!(b, 1);
    assert_eq!(a2, 0);
    assert_eq!(v.len(), 2);
    assert_eq!(v.get_id("world"), Some(1));
    assert_eq!(v.get_token(1), Some("world".to_string()));
    assert_eq!(v.get_id("missing"), None);
    assert_eq!(v.get_token(9), None);
}

#[test]
fn vocabulary_rejects_duplicates() {
    let r = Vocabulary::from_tokens(vec!["a".to_string(), "b".to_string(), "a".to_string()]);
    assert_eq!(r.err(), Some(BpeError::DuplicateVocabToken { index: 2 }));
}

#[test]
fn merge_lists_must_have_two_elements() {
    let lists = vec![
        vec!["a".to_string(), "b".to_string()],
        vec!["c".to_string()],
    ];
    let r = MergeTable::pairs_from_lists(lists);
    assert_eq!(r.err(), Some(BpeError::MalformedMergeEntry { index: 1, found: 1 }));
}

#[test]
fn merges_must_resolve_in_vocabulary() {
    let v = vocab_of(&["a", "b", "ab"]);
    let ok = MergeTable::from_pairs(&pairs_of(&[("a", "b")]), &v);
    assert!(ok.is_ok());
    let missing_merged = MergeTable::from_pairs(&pairs_of(&[("b", "a")]), &v);
    assert_eq!(missing_merged.err(), Some(BpeError::MergeTokenMissing { rank: 0 }));
    let missing_left = MergeTable::from_pairs(&pairs_of(&[("x", "b")]), &v);
    assert_eq!(missing_left.err(), Some(BpeError::MergeTokenMissing { rank: 0 }));
}

#[test]
fn model_requires_vocab_and_merges_together() {
    let r = BpeModel::new(
        Some(vocab_of(&["a"])),
        None,
        None,
        None,
        None,
        None,
        None,
        None,
    );
    assert_eq!(r.err(), Some(BpeError::VocabMergesMismatch));
    let r2 = BpeModel::new(None, Some(vec![]), None, None, None, None, None, None);
    assert_eq!(r2.err(), Some(BpeError::VocabMergesMismatch));
    assert!(BpeModel::new(None, None, None, None, None, None, None, None).is_ok());
}

#[test]
fn model_rejects_out_of_range_dropout() {
    let r = BpeModel::new(None, None, None, Some(10000), None, None, None, None);
    assert_eq!(r.err(), Some(BpeError::InvalidDropout));
    assert!(BpeModel::new(None, None, None, Some(9999), None, None, None, None).is_ok());
}

#[test]
fn model_rejects_unknown_token_missing_from_vocab() {
    let r = BpeModel::new(
        Some(vocab_of(&["a"])),
        Some(vec![]),
        None,
        None,
        Some("<unk>".to_string()),
        None,
        None,
        None,
    );
    assert_eq!(r.err(), Some(BpeError::UnkTokenAbsent));
}

#[test]
fn merge_priority_is_by_rank() {
    // Merges: (a,b)->ab has rank 0, (b,c)->bc rank 1.  "abc" must become
    // ["ab","c"], never ["a","bc"].
    let mut m = simple_model(&["a", "b", "c", "ab", "bc"], &[("a", "b"), ("b", "c")]);
    assert_eq!(token_values(&mut m, "abc"), vec!["ab", "c"]);
}

#[test]
fn tokenize_is_deterministic() {
    let mut m = simple_model(&["a", "b", "c", "ab", "abc"], &[("a", "b"), ("ab", "c")]);
    let first: Vec<usize> = m.tokenize("abcab").unwrap().iter().map(|t| t.id).collect();
    let second: Vec<usize> = m.tokenize("abcab").unwrap().iter().map(|t| t.id).collect();
    assert_eq!(first, second);
    assert_eq!(token_values(&mut m, "abcab"), vec!["abc", "ab"]);
}

#[test]
fn cache_capacity_zero_matches_default() {
    let tokens = ["l", "o", "w", "e", "r", "lo", "low", "er", "lower"];
    let merges = [("l", "o"), ("lo", "w"), ("e", "r"), ("low", "er")];
    let mut cached = BpeModel::new(
        Some(vocab_of(&tokens)),
        Some(pairs_of(&merges)),
        Some(64),
        None,
        None,
        None,
        None,
        None,
    )
    .unwrap();
    let mut uncached = BpeModel::new(
        Some(vocab_of(&tokens)),
        Some(pairs_of(&merges)),
        Some(0),
        None,
        None,
        None,
        None,
        None,
    )
    .unwrap();
    for word in ["low", "lower", "lo", "werlo", "l"] {
        let a: Vec<(usize, usize, usize)> = cached
            .tokenize(word)
            .unwrap()
            .iter()
            .map(|t| (t.id, t.start, t.end))
            .collect();
        let b: Vec<(usize, usize, usize)> = uncached
            .tokenize(word)
            .unwrap()
            .iter()
            .map(|t| (t.id, t.start, t.end))
            .collect();
        assert_eq!(a, b);
        // Hit the cache a second time: still identical.
        let c: Vec<(usize, usize, usize)> = cached
            .tokenize(word)
            .unwrap()
            .iter()
            .map(|t| (t.id, t.start, t.end))
            .collect();
        assert_eq!(a, c);
    }
}

#[test]
fn reconstruction_concatenates_back_to_word() {
    let mut m = simple_model(
        &["h", "u", "g", "s", "hu", "hug", "gs"],
        &[("h", "u"), ("hu", "g"), ("g", "s")],
    );
    for word in ["hugs", "hug", "shug", "uggs", "h"] {
        let toks = m.tokenize(word).unwrap();
        let joined: String = toks.iter().map(|t| t.value.as_str()).collect();
        assert_eq!(joined, word);
        let ids: Vec<usize> = toks.iter().map(|t| t.id).collect();
        assert_eq!(m.decode(&ids), Some(word.to_string()));
    }
}

#[test]
fn offsets_tile_the_word() {
    let mut m = simple_model(&["a", "b", "ab"], &[("a", "b")]);
    let toks = m.tokenize("abab").unwrap();
    assert_eq!(toks[0].start, 0);
    for w in toks.windows(2) {
        assert_eq!(w[0].end, w[1].start);
    }
    assert_eq!(toks.last().unwrap().end, 4);
}

#[test]
fn unknown_without_fallback_is_an_error() {
    let mut m = simple_model(&["a", "b", "ab"], &[("a", "b")]);
    assert_eq!(
        m.tokenize("axb").err(),
        Some(BpeError::UnknownCharacter { position: 1 })
    );
}

#[test]
fn unknown_with_fallback_maps_to_unk_id() {
    let mut m = BpeModel::new(
        Some(vocab_of(&["<unk>", "a", "b", "ab"])),
        Some(pairs_of(&[("a", "b")])),
        None,
        None,
        Some("<unk>".to_string()),
        None,
        None,
        None,
    )
    .unwrap();
    let ids: Vec<usize> = m.tokenize("axxb").unwrap().iter().map(|t| t.id).collect();
    // Without fusing, each unknown character yields one fallback token.
    assert_eq!(ids, vec![1, 0, 0, 2]);
}

#[test]
fn fused_unknowns_collapse_to_one_token() {
    let mut m = BpeModel::new(
        Some(vocab_of(&["<unk>", "a", "b", "ab"])),
        Some(pairs_of(&[("a", "b")])),
        None,
        None,
        Some("<unk>".to_string()),
        None,
        None,
        Some(true),
    )
    .unwrap();
    let toks = m.tokenize("axxb").unwrap();
    let ids: Vec<usize> = toks.iter().map(|t| t.id).collect();
    assert_eq!(ids, vec![1, 0, 2]);
    assert_eq!((toks[1].start, toks[1].end), (1, 3));
}

#[test]
fn known_characters_equal_to_the_unk_token_do_not_fuse() {
    let mut m = BpeModel::new(
        Some(vocab_of(&["a", "b"])),
        Some(vec![]),
        None,
        None,
        Some("a".to_string()),
        None,
        None,
        Some(true),
    )
    .unwrap();
    // Fusing goes by fallback origin: known characters that happen to carry
    // the fallback id stay separate, and the word reconstructs.
    let toks = m.tokenize("aab").unwrap();
    let values: Vec<&str> = toks.iter().map(|t| t.value.as_str()).collect();
    assert_eq!(values, vec!["a", "a", "b"]);
    // A genuinely unknown adjacent run still fuses to one fallback token.
    let toks2 = m.tokenize("xxb").unwrap();
    let ids: Vec<usize> = toks2.iter().map(|t| t.id).collect();
    assert_eq!(ids, vec![0, 1]);
}

#[test]
fn affixes_render_before_lookup() {
    // Continuing-subword prefix "##": non-initial characters look up their
    // prefixed form; the end-of-word suffix "</w>" marks the last one.
    let mut m = BpeModel::new(
        Some(vocab_of(&["a", "##b", "##c</w>"])),
        Some(vec![]),
        None,
        None,
        None,
        Some("##".to_string()),
        Some("</w>".to_string()),
        None,
    )
    .unwrap();
    assert_eq!(token_values(&mut m, "abc"), vec!["a", "##b", "##c</w>"]);
}

#[test]
fn decode_strips_affixes() {
    let m = BpeModel::new(
        Some(vocab_of(&["a", "##b", "##c</w>"])),
        Some(vec![]),
        None,
        None,
        None,
        Some("##".to_string()),
        Some("</w>".to_string()),
        None,
    )
    .unwrap();
    assert_eq!(m.decode(&vec![0, 1, 2]), Some("abc".to_string()));
    assert_eq!(m.decode(&vec![0, 7]), None);
}

#[test]
fn dropout_still_tiles_the_word() {
    let mut m = BpeModel::new(
        Some(vocab_of(&["a", "b", "c", "ab", "abc"])),
        Some(pairs_of(&[("a", "b"), ("ab", "c")])),
        None,
        Some(5000),
        None,
        None,
        None,
        None,
    )
    .unwrap();
    for _ in 0..20 {
        let toks = m.tokenize("abcabc").unwrap();
        let joined: String = toks.iter().map(|t| t.value.as_str()).collect();
        assert_eq!(joined, "abcabc");
        assert_eq!(toks[0].start, 0);
        assert_eq!(toks.last().unwrap().end, 6);
    }
}

#[test]
fn registering_a_special_token_twice_is_a_no_op() {
    let mut vocab = Vocabulary::new();
    let mut registry = AddedTokenRegistry::new();
    let id1 = registry.register(AddedToken::special("<pad>".to_string()), &mut vocab);
    let len_after_first = vocab.len();
    let id2 = registry.register(AddedToken::special("<pad>".to_string()), &mut vocab);
    assert_eq!(id1, id2);
    assert_eq!(vocab.len(), len_after_first);
    assert_eq!(registry.len(), 2);
    assert_eq!(registry.full_match("<pad>", &vocab), Some(id1));
    assert_eq!(registry.full_match("other", &vocab), None);
}

fn fed_trainer(vocab_size: usize, min_frequency: u64, specials: Vec<&str>) -> BpeTrainer {
    let mut t = BpeTrainer::new(
        Some(vocab_size),
        Some(min_frequency),
        Some(false),
        Some(
            specials
                .into_iter()
                .map(|s| AddedToken::special(s.to_string()))
                .collect(),
        ),
        None,
        None,
        None,
        None,
    );
    t.feed_word("low", 5);
    t.feed_word("lower", 2);
    t.feed_word("newest", 6);
    t.feed_word("widest", 3);
    t
}

#[test]
fn training_learns_the_canonical_first_merge() {
    let trainer = fed_trainer(100, 2, vec!["<unk>"]);
    let out = trainer.train();
    // The most frequent adjacent pair is (e,s) with weight 9; the tie with
    // (s,t) breaks toward the smaller pair.
    let rule = out.merges.rule_at(0).expect("at least one merge");
    assert_eq!(out.vocab.get_token(rule.left), Some("e".to_string()));
    assert_eq!(out.vocab.get_token(rule.right), Some("s".to_string()));
    assert_eq!(out.vocab.get_token(rule.new_id), Some("es".to_string()));
    // Distinct characters of the corpus: l,o,w,e,r,n,s,t,i,d -> 10.
    let alphabet = 10;
    let specials = 1;
    assert_eq!(out.vocab.len(), specials + alphabet + out.merges.len());
    assert!(out.vocab.len() <= 100);
    // Special tokens take the lowest ids, in order.
    assert_eq!(out.vocab.get_id("<unk>"), Some(0));
}

#[test]
fn training_respects_the_target_size() {
    let trainer = fed_trainer(13, 1, vec!["<unk>"]);
    let out = trainer.train();
    assert!(out.vocab.len() <= 13);
    assert_eq!(out.merges.len(), 13 - 11);
}

#[test]
fn frequency_ties_break_on_the_id_pair_not_the_strings() {
    // Feeding "bc" before "ad" assigns the ids b=0, c=1, a=2, d=3.  The
    // pairs (b,c) and (a,d) tie at weight 2; the documented rule picks the
    // smaller id pair, (b,c) — string order would pick (a,d) instead.
    let mut t = BpeTrainer::new(
        Some(100),
        Some(1),
        Some(false),
        None,
        None,
        None,
        None,
        None,
    );
    t.feed_word("bc", 2);
    t.feed_word("ad", 2);
    let out = t.train();
    let rule = out.merges.rule_at(0).expect("at least one merge");
    assert_eq!(out.vocab.get_token(rule.left), Some("b".to_string()));
    assert_eq!(out.vocab.get_token(rule.right), Some("c".to_string()));
    assert_eq!(out.vocab.get_token(rule.new_id), Some("bc".to_string()));
}

#[test]
fn empty_corpus_trains_to_specials_only() {
    let t = BpeTrainer::new(
        Some(50),
        Some(2),
        None,
        Some(vec![AddedToken::special("<s>".to_string())]),
        None,
        None,
        None,
        None,
    );
    let out = t.train();
    assert_eq!(out.vocab.len(), 1);
    assert_eq!(out.merges.len(), 0);
    assert_eq!(out.vocab.get_id("<s>"), Some(0));
}

#[test]
fn trained_model_round_trips_training_words() {
    let trainer = fed_trainer(100, 2, vec![]);
    let out = trainer.train();
    let mut model = BpeModel::new(None, None, None, None, None, None, None, None).unwrap();
    model.set_model(out.vocab, out.merges).expect("assignment must succeed");
    for word in ["low", "lower", "newest", "widest"] {
        let toks = model.tokenize(word).unwrap();
        let ids: Vec<usize> = toks.iter().map(|t| t.id).collect();
        assert_eq!(model.decode(&ids), Some(word.to_string()));
    }
}

#[test]
fn trainer_reports_its_special_tokens() {
    let trainer = fed_trainer(30, 2, vec!["<pad>", "<unk>"]);
    let specials: Vec<String> = trainer
        .get_special_tokens()
        .into_iter()
        .map(|t| t.content)
        .collect();
    assert_eq!(specials, vec!["<pad>".to_string(), "<unk>".to_string()]);
    assert!(!trainer.should_show_progress());
}

#[test]
fn unk_token_string_is_reported() {
    let m = BpeModel::new(
        Some(vocab_of(&["<unk>", "a"])),
        Some(vec![]),
        None,
        None,
        Some("<unk>".to_string()),
        None,
        None,
        None,
    )
    .unwrap();
    assert_eq!(m.get_unk_token(), Some("<unk>".to_string()));
    let bare = BpeModel::new(None, None, None, None, None, None, None, None).unwrap();
    assert_eq!(bare.get_unk_token(), None);
}

#[test]
fn special_tokens_bypass_merge_splitting() {
    let mut vocab = vocab_of(&["a", "b", "ab"]);
    let mut registry = AddedTokenRegistry::new();
    let special_id = registry.register(AddedToken::special("<mask>".to_string()), &mut vocab);
    let mut m = BpeModel::new(
        Some(vocab),
        Some(pairs_of(&[("a", "b")])),
        None,
        None,
        None,
        None,
        None,
        None,
    )
    .unwrap();
    let toks = m.tokenize_with_specials(&registry, "<mask>").unwrap();
    assert_eq!(toks.len(), 1);
    assert_eq!(toks[0].id, special_id);
    assert_eq!(toks[0].value, "<mask>");
    // An unregistered word still goes through the merge pipeline.
    let plain = m.tokenize_with_specials(&registry, "ab").unwrap();
    assert_eq!(plain.len(), 1);
    assert_eq!(plain[0].value, "ab");
}

#[test]
fn assignment_requires_the_unk_token_to_survive() {
    let mut model = BpeModel::new(
        Some(vocab_of(&["<unk>", "a"])),
        Some(vec![]),
        None,
        None,
        Some("<unk>".to_string()),
        None,
        None,
        None,
    )
    .unwrap();
    let out = fed_trainer(100, 2, vec![]).train();
    // The trained vocabulary has no "<unk>" entry, so the assignment is
    // rejected and the model keeps working as before.
    assert_eq!(
        model.set_model(out.vocab, out.merges).err(),
        Some(BpeError::UnkTokenAbsent)
    );
    assert_eq!(model.get_unk_token(), Some("<unk>".to_string()));
    // With the unknown token among the specials the assignment succeeds.
    let out2 = fed_trainer(100, 2, vec!["<unk>"]).train();
    assert!(model.set_model(out2.vocab, out2.merges).is_ok());
}

#[test]
fn alphabet_cap_drops_least_frequent_characters() {
    let mut t = BpeTrainer::new(
        Some(100),
        Some(1),
        None,
        None,
        Some(2),
        None,
        None,
        None,
    );
    // Frequencies: a=3, b=2, c=1 — the cap of 2 keeps a and b.
    t.feed_word("aab", 1);
    t.feed_word("ab", 1);
    t.feed_word("c", 1);
    let out = t.train();
    assert!(out.vocab.get_id("a").is_some());
    assert!(out.vocab.get_id("b").is_some());
    assert_eq!(out.vocab.get_id("c"), None);
}

#[test]
fn forced_initial_alphabet_is_immune_to_the_cap() {
    let mut t = BpeTrainer::new(
        Some(100),
        Some(1000),
        None,
        None,
        Some(1),
        Some(vec!["z".to_string(), "".to_string()]),
        None,
        None,
    );
    t.feed_word("ab", 1);
    let out = t.train();
    // The cap of 1 drops the observed characters — the greater one first on
    // the frequency tie — but never the forced entry.
    assert!(out.vocab.get_id("z").is_some());
    assert_eq!(out.vocab.get_id("a"), None);
    assert_eq!(out.vocab.get_id("b"), None);
    assert_eq!(out.merges.len(), 0);
}

#[test]
fn trainer_and_model_agree_on_affixes() {
    let mut t = BpeTrainer::new(
        Some(100),
        Some(1000),
        None,
        None,
        None,
        None,
        Some("##".to_string()),
        None,
    );
    t.feed_word("low", 1);
    let out = t.train();
    // The huge minimum frequency forbids merges, so the vocabulary is just
    // the rendered alphabet.
    assert_eq!(out.merges.len(), 0);
    let mut model = BpeModel::new(
        None,
        None,
        None,
        None,
        None,
        Some("##".to_string()),
        None,
        None,
    )
    .unwrap();
    model.set_model(out.vocab, out.merges).unwrap();
    let toks = model.tokenize("low").unwrap();
    let values: Vec<&str> = toks.iter().map(|t| t.value.as_str()).collect();
    assert_eq!(values, vec!["l", "##o", "##w"]);
    let ids: Vec<usize> = toks.iter().map(|t| t.id).collect();
    assert_eq!(model.decode(&ids), Some("low".to_string()));
}

#[test]
fn multibyte_characters_are_single_symbols() {
    let mut m = simple_model(&["é", "b", "éb"], &[("é", "b")]);
    let toks = m.tokenize("éb").unwrap();
    assert_eq!(toks.len(), 1);
    assert_eq!(toks[0].value, "éb");
    assert_eq!((toks[0].start, toks[0].end), (0, 2));
}
