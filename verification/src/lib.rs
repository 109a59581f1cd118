//! A Byte-Pair-Encoding (BPE) subword tokenization engine: a model that turns
//! pre-tokenized words into token-id sequences by greedy rank-ordered merges,
//! and a trainer that learns the vocabulary and merge ordering from word
//! frequencies.

use vstd::prelude::*;

pub mod added;
pub mod merges;
pub mod model;
pub mod trainer;
pub mod vocab;
pub mod word;

verus! {

/// Errors surfaced by model and trainer construction, by loading vocabulary
/// and merge data, and by tokenizing a word whose characters cannot be
/// resolved.  All are deterministic validation failures; nothing here is
/// transient or retriable.
#[derive(Clone, Copy, Debug, PartialEq, Eq, Structural)]
pub enum BpeError {
    /// Configuration: a vocabulary was supplied without merges, or merges
    /// without a vocabulary.
    VocabMergesMismatch,
    /// Configuration: entry `index` of the merge list holds `found` elements
    /// instead of exactly two.
    MalformedMergeEntry { index: usize, found: usize },
    /// Configuration: the dropout numerator is not below `DROPOUT_SCALE`
    /// (the probability must lie in `[0, 1)`).
    InvalidDropout,
    /// Format: the vocabulary data lists the same token twice; `index` is the
    /// position of the second occurrence.
    DuplicateVocabToken { index: usize },
    /// Format: merge rule `rank` names a constituent token, or a merged
    /// token, that the vocabulary does not contain.
    MergeTokenMissing { rank: usize },
    /// Configuration: an unknown-token string was supplied that the
    /// vocabulary does not contain.
    UnkTokenAbsent,
    /// Tokenization: the character at `position` (a character index into the
    /// word) is not in the vocabulary and no unknown-token fallback is
    /// configured.
    UnknownCharacter { position: usize },
}

} // verus!
