//! What texts are written for numbers, errors and models.

use crate::construction::{
    class_text, file_warning_text, BpeSetting, BpeSettings, ConstructionError, ModelKind,
    WordPieceSetting, WordPieceSettings,
};
use crate::double::Double;
use crate::error::UnigramError;
use crate::model::query::{
    default_view, is_vocab_entry, is_vocab_list, optional_text, same_vocab, truth_text,
};
use crate::model::vocab_of;
use crate::text::{decimal, digits};
use crate::token_laws::has_entry;
use crate::vocabulary::{fits, ids, lemma_ids, Vocab};
use vstd::prelude::*;

verus! {

/// The number that a text of decimal digits stands for.
pub open spec fn number_of(text: Seq<char>) -> int {
    text.fold_left(0int, |sum: int, c: char| sum * 10 + (c as u32 - '0' as u32))
}

/// The decimal text of a number consists of digits, stands for that number, and begins with zero
/// only where it is the text of zero.
pub proof fn law_decimal_stands_for_number(n: nat)
    ensures
        number_of(decimal(n)) == n,
        decimal(n).len() > 0,
        forall|i: int| 0 <= i < decimal(n).len() ==> '0' <= (#[trigger] decimal(n)[i]) <= '9',
        decimal(n)[0] == '0' ==> n == 0 && decimal(n).len() == 1,
    decreases n,
{
    let text = decimal(n);
    let step = |sum: int, c: char| sum * 10 + (c as u32 - '0' as u32);
    if n < 10 {
        assert(text.drop_last() =~= Seq::<char>::empty());
        assert(text.last() as u32 - '0' as u32 == n);
        assert(text.drop_last().fold_left(0int, step) == 0);
        assert(text.fold_left(0int, step) == n);
    } else {
        let before = decimal(n / 10);
        law_decimal_stands_for_number(n / 10);
        assert(text.drop_last() =~= before);
        assert(text.last() == digits()[(n % 10) as int]);
        assert(text.last() as u32 - '0' as u32 == n % 10);
        assert(before.fold_left(0int, step) == n / 10);
        assert(text.fold_left(0int, step) == n);
        assert forall|i: int| 0 <= i < text.len() implies '0' <= (#[trigger] text[i]) <= '9' by {
            if i < before.len() {
                assert(text[i] == before[i]);
            }
        }
        assert(text[0] == before[0]);
    }
}

/// The texts of errors.
pub proof fn law_error_texts(a: usize, b: usize, error: UnigramError)
    ensures
        UnigramError::EmptyVocabulary.text()
            == "The vocabulary is empty but at least <unk> is needed"@,
        UnigramError::UnkIdNotInVocabulary.text() == "The `unk_id` is larger than vocabulary size"@,
        UnigramError::MissingUnkId.text()
            == "Encountered an unknown token but `unk_id` is missing"@,
        UnigramError::NoCachedWeights.text() == "No cached weight sets have been provided"@,
        (UnigramError::MismatchedWeightLength { expected: a, got: b }).text()
            == "Weights length mismatch: expected "@ + decimal(a as nat) + ", got "@ + decimal(
            b as nat,
        ),
        (UnigramError::WeightSetIndexOutOfRange { index: a, num_sets: b }).text()
            == "Weight set index "@ + decimal(a as nat) + " is out of range: only "@ + decimal(
            b as nat,
        ) + " cached weight sets are available"@,
        (UnigramError::MismatchedBatchLength { sentences: a, indices: b }).text()
            == "Batch length mismatch: "@ + decimal(a as nat) + " sentences but "@ + decimal(
            b as nat,
        ) + " indices"@,
        ConstructionError::VocabAndMerges.text() == "`vocab` and `merges` must be both specified"@,
        ConstructionError::MixedSources.text()
            == "`vocab` and `merges` must be both be from memory or both filenames"@,
        ConstructionError::VocabAndUnkId.text() == "`vocab` and `unk_id` must be both specified"@,
        ConstructionError::Loading(error).text() == "Error while loading Unigram: "@ + error.text(),
{
}

/// The names of models, and the warning that one is no longer made from files.
pub proof fn law_class_texts(kind: ModelKind)
    ensures
        class_text(ModelKind::Bpe) == "BPE"@,
        class_text(ModelKind::WordPiece) == "WordPiece"@,
        class_text(ModelKind::WordLevel) == "WordLevel"@,
        class_text(ModelKind::Unigram) == "Unigram"@,
        file_warning_text(kind) == class_text(kind)
            + ".__init__ will not create from files anymore, try `"@ + class_text(kind)
            + ".from_file` instead"@,
        optional_text(None) == "None"@,
        forall|n: usize| #[trigger] optional_text(Some(n)) == "Some("@ + decimal(n as nat) + ")"@,
        truth_text(true) == "true"@,
        truth_text(false) == "false"@,
{
}

/// What a setting of a BPE model changes: that setting, and no other; an unknown token or dropout
/// of nothing changes none.
pub proof fn law_bpe_settings(before: BpeSettings, setting: BpeSetting)
    ensures
        ({
            let after = before.with(setting);
            &&& after.cache_capacity == (if setting is CacheCapacity {
                Some(setting->CacheCapacity_0)
            } else {
                before.cache_capacity
            })
            &&& after.dropout == (if setting is Dropout && setting->Dropout_0 is Some {
                setting->Dropout_0
            } else {
                before.dropout
            })
            &&& after.unk_token == (if setting is UnkToken && setting->UnkToken_0 is Some {
                setting->UnkToken_0
            } else {
                before.unk_token
            })
            &&& after.continuing_subword_prefix == (if setting is ContinuingSubwordPrefix {
                Some(setting->ContinuingSubwordPrefix_0)
            } else {
                before.continuing_subword_prefix
            })
            &&& after.end_of_word_suffix == (if setting is EndOfWordSuffix {
                Some(setting->EndOfWordSuffix_0)
            } else {
                before.end_of_word_suffix
            })
            &&& after.fuse_unk == (if setting is FuseUnk {
                Some(setting->FuseUnk_0)
            } else {
                before.fuse_unk
            })
            &&& after.byte_fallback == (if setting is ByteFallback {
                Some(setting->ByteFallback_0)
            } else {
                before.byte_fallback
            })
            &&& after.ignore_merges == (if setting is IgnoreMerges {
                Some(setting->IgnoreMerges_0)
            } else {
                before.ignore_merges
            })
        }),
{
}

/// What a setting of a WordPiece model changes: that setting, and no other.
pub proof fn law_word_piece_settings(before: WordPieceSettings, setting: WordPieceSetting)
    ensures
        ({
            let after = before.with(setting);
            &&& after.unk_token == (if setting is UnkToken {
                Some(setting->UnkToken_0)
            } else {
                before.unk_token
            })
            &&& after.max_input_chars_per_word == (if setting is MaxInputCharsPerWord {
                Some(setting->MaxInputCharsPerWord_0)
            } else {
                before.max_input_chars_per_word
            })
            &&& after.continuing_subword_prefix == (if setting is ContinuingSubwordPrefix {
                Some(setting->ContinuingSubwordPrefix_0)
            } else {
                before.continuing_subword_prefix
            })
        }),
{
}

/// The token is listed.
pub open spec fn lists_token(list: Seq<(String, u32)>, token: Seq<char>) -> bool {
    exists|i: int| 0 <= i < list.len() && (#[trigger] list[i]).0@ == token
}

/// The list of a vocabulary: each of its tokens once, with the place of its last entry, in the
/// order of the places.
pub proof fn law_vocab_list(vocab: Vocab, list: Seq<(String, u32)>)
    requires
        fits(vocab),
        is_vocab_list(vocab, list),
    ensures
        forall|i: int|
            0 <= i < list.len() ==> has_entry(vocab, (#[trigger] list[i]).0@, list[i].1 as int),
        forall|i: int, j: int|
            #![trigger list[i], list[j]]
            0 <= i < j < list.len() ==> list[i].1 < list[j].1,
        forall|k: int|
            0 <= k < vocab.len() ==> lists_token(list, (#[trigger] vocab[k]).0),
{
    assert forall|i: int| 0 <= i < list.len() implies has_entry(
        vocab,
        (#[trigger] list[i]).0@,
        list[i].1 as int,
    ) by {
        assert(is_vocab_entry(vocab, list[i].0@, list[i].1));
        lemma_ids(vocab, list[i].0@);
    }
    assert forall|k: int| 0 <= k < vocab.len() implies lists_token(list, (#[trigger] vocab[k]).0) by {
        lemma_ids(vocab, vocab[k].0);
        assert(ids(vocab).contains_key(vocab[k].0));
    }
}

/// The entries of a vocabulary, and when two vocabularies are the same.
pub proof fn law_vocab_entries(entries: Seq<(String, Double)>, a: Vocab, b: Vocab)
    ensures
        vocab_of(entries).len() == entries.len(),
        forall|i: int|
            0 <= i < entries.len() ==> (#[trigger] vocab_of(entries)[i]) == (
                entries[i].0@,
                entries[i].1,
            ),
        same_vocab(a, b) <==> a.len() == b.len() && forall|i: int|
            0 <= i < a.len() ==> (#[trigger] a[i]).0 == b[i].0 && !a[i].1.nan() && !b[i].1.nan()
                && a[i].1.value() == b[i].1.value(),
{
    if a.len() == b.len() && forall|i: int|
        0 <= i < a.len() ==> (#[trigger] a[i]).0 == b[i].0 && !a[i].1.nan() && !b[i].1.nan()
            && a[i].1.value() == b[i].1.value() {
        assert(same_vocab(a, b));
    }
    if same_vocab(a, b) {
        assert forall|i: int| 0 <= i < a.len() implies (#[trigger] a[i]).0 == b[i].0
            && !a[i].1.nan() && !b[i].1.nan() && a[i].1.value() == b[i].1.value() by {
            assert(a[i].1.same_number(b[i].1));
        }
    }
}

/// The default model: its only token is the unknown one.
pub proof fn law_default_model()
    ensures
        default_view().encoder.vocab == seq![("<unk>"@, Double { bits: 0 })],
        default_view().encoder.unk_id == Some(0usize),
        default_view().encoder.min_score.bits == 0,
        default_view().encoder.fuse_unk,
        default_view().encoder.is_optimized,
        !default_view().byte_fallback,
        default_view().weight_sets is None,
{
    let vocab = default_view().encoder.vocab;
    crate::model_laws::law_lowest_is_least(vocab);
    let zero = Double { bits: 0 };
    let top = Double { bits: crate::double::DOUBLE_INFINITY };
    assert(vocab.drop_last() =~= seq![]);
    assert(crate::model::lowest(vocab.drop_last()) == top);
    reveal(Double::exceeds);
    crate::binary_float::lemma_magnitude_small(crate::double::double_format());
    crate::binary_float::lemma_magnitude_order(
        crate::double::double_format(),
        0,
        crate::double::DOUBLE_INFINITY as nat,
    );
}

} // verus!
