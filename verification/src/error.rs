//! What can go wrong in building or using a model.

use crate::text::{decimal, push_decimal};
use vstd::prelude::*;

verus! {

/// The errors of a unigram model.
#[derive(Clone, Copy, Debug, PartialEq, Eq, Structural)]
pub enum UnigramError {
    EmptyVocabulary,
    UnkIdNotInVocabulary,
    MissingUnkId,
    MismatchedWeightLength { expected: usize, got: usize },
    NoCachedWeights,
    WeightSetIndexOutOfRange { index: usize, num_sets: usize },
    MismatchedBatchLength { sentences: usize, indices: usize },
}

impl UnigramError {
    /// The text of the error message.
    pub open spec fn text(self) -> Seq<char> {
        match self {
            UnigramError::EmptyVocabulary => {
                "The vocabulary is empty but at least <unk> is needed"@
            },
            UnigramError::UnkIdNotInVocabulary => {
                "The `unk_id` is larger than vocabulary size"@
            },
            UnigramError::MissingUnkId => {
                "Encountered an unknown token but `unk_id` is missing"@
            },
            UnigramError::MismatchedWeightLength { expected, got } => {
                "Weights length mismatch: expected "@ + decimal(expected as nat) + ", got "@
                    + decimal(got as nat)
            },
            UnigramError::NoCachedWeights => "No cached weight sets have been provided"@,
            UnigramError::WeightSetIndexOutOfRange { index, num_sets } => {
                "Weight set index "@ + decimal(index as nat) + " is out of range: only "@
                    + decimal(num_sets as nat) + " cached weight sets are available"@
            },
            UnigramError::MismatchedBatchLength { sentences, indices } => {
                "Batch length mismatch: "@ + decimal(sentences as nat) + " sentences but "@
                    + decimal(indices as nat) + " indices"@
            },
        }
    }

    /// The error message.
    pub fn message(&self) -> (message: String)
        ensures
            message@ == self.text(),
    {
        match self {
            UnigramError::EmptyVocabulary => {
                "The vocabulary is empty but at least <unk> is needed".to_owned()
            },
            UnigramError::UnkIdNotInVocabulary => {
                "The `unk_id` is larger than vocabulary size".to_owned()
            },
            UnigramError::MissingUnkId => {
                "Encountered an unknown token but `unk_id` is missing".to_owned()
            },
            UnigramError::MismatchedWeightLength { expected, got } => {
                let mut message = "Weights length mismatch: expected ".to_owned();
                push_decimal(&mut message, *expected);
                message.append(", got ");
                push_decimal(&mut message, *got);
                message
            },
            UnigramError::NoCachedWeights => {
                "No cached weight sets have been provided".to_owned()
            },
            UnigramError::WeightSetIndexOutOfRange { index, num_sets } => {
                let mut message = "Weight set index ".to_owned();
                push_decimal(&mut message, *index);
                message.append(" is out of range: only ");
                push_decimal(&mut message, *num_sets);
                message.append(" cached weight sets are available");
                message
            },
            UnigramError::MismatchedBatchLength { sentences, indices } => {
                let mut message = "Batch length mismatch: ".to_owned();
                push_decimal(&mut message, *sentences);
                message.append(" sentences but ");
                push_decimal(&mut message, *indices);
                message.append(" indices");
                message
            },
        }
    }
}

} // verus!
