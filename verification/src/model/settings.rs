//! Changing a model: its sets of weights, the way it encodes, and its cache.

use super::choice::{first_mismatch, narrow_sets};
use super::{are_alike, encoded_pairs, is_encoding, sets_of, Unigram};
use crate::double::Double;
use crate::encoding::Encoder;
use crate::error::UnigramError;
use crate::single::Single;
use crate::weight_sets::{
    all_of_length, given_sets, is_first_mismatch, narrowed_sets, ModelView,
};
use vstd::prelude::*;

verus! {

/// Some set does not have a weight for each token: the error says how many are expected, and
/// how many the first such set has.
pub open spec fn is_length_mismatch<T>(sets: Seq<Seq<T>>, length: nat, error: UnigramError) -> bool {
    exists|i: int| #[trigger]
        is_first_mismatch(sets, length, i) && error == (UnigramError::MismatchedWeightLength {
            expected: length as usize,
            got: sets[i].len() as usize,
        })
}

impl Unigram {
    /// Keeps sets of weights with the model, rounded to single precision, in place of any that
    /// it has. Each set has a weight for each token. On an error the model stays as it is.
    pub fn set_weight_sets(&mut self, sets: Vec<Vec<Double>>) -> (result: Result<(), UnigramError>)
        requires
            old(self).wf(),
        ensures
            final(self).wf(),
            final(self).origins() == old(self).origins(),
            final(self).cache_limit() == old(self).cache_limit(),
            final(self).kept() == old(self).kept(),
            final(self).most() == old(self).most(),
            match result {
                Ok(_) => {
                    &&& all_of_length(given_sets(sets@), old(self)@.encoder.vocab.len())
                    &&& final(self)@ == (ModelView {
                        weight_sets: Some(narrowed_sets(given_sets(sets@))),
                        ..old(self)@
                    })
                },
                Err(error) => {
                    &&& is_length_mismatch(
                        given_sets(sets@),
                        old(self)@.encoder.vocab.len(),
                        error,
                    )
                    &&& final(self)@ == old(self)@
                },
            },
    {
        let expected: usize = self.vocab.len();
        match first_mismatch(sets.as_slice(), expected) {
            Some(i) => {
                assert(given_sets(sets@)[i as int] == sets@[i as int]@);
                assert(is_first_mismatch(given_sets(sets@), expected as nat, i as int));
                return Err(UnigramError::MismatchedWeightLength { expected, got: sets[i].len() });
            },
            None => {},
        }
        let packed: Vec<Vec<Single>> = narrow_sets(sets.as_slice());
        proof {
            assert forall|i: int| 0 <= i < sets_of(packed@).len() implies (
            #[trigger] sets_of(packed@)[i]).len() == self@.encoder.vocab.len() by {
                assert(given_sets(sets@)[i].len() == self@.encoder.vocab.len());
            }
        }
        self.cached_weight_sets = Some(packed);
        Ok(())
    }

    /// Like `set_weight_sets`, for weights in single precision.
    pub fn set_weight_sets_f32(&mut self, sets: Vec<Vec<Single>>) -> (result: Result<
        (),
        UnigramError,
    >)
        requires
            old(self).wf(),
        ensures
            final(self).wf(),
            final(self).origins() == old(self).origins(),
            final(self).cache_limit() == old(self).cache_limit(),
            final(self).kept() == old(self).kept(),
            final(self).most() == old(self).most(),
            match result {
                Ok(_) => {
                    &&& all_of_length(sets_of(sets@), old(self)@.encoder.vocab.len())
                    &&& final(self)@ == (ModelView {
                        weight_sets: Some(sets_of(sets@)),
                        ..old(self)@
                    })
                },
                Err(error) => {
                    &&& is_length_mismatch(sets_of(sets@), old(self)@.encoder.vocab.len(), error)
                    &&& final(self)@ == old(self)@
                },
            },
    {
        let expected: usize = self.vocab.len();
        match first_mismatch(sets.as_slice(), expected) {
            Some(i) => {
                assert(sets_of(sets@)[i as int] == sets@[i as int]@);
                assert(is_first_mismatch(sets_of(sets@), expected as nat, i as int));
                return Err(UnigramError::MismatchedWeightLength { expected, got: sets[i].len() });
            },
            None => {},
        }
        self.cached_weight_sets = Some(sets);
        Ok(())
    }

    /// Drops the sets of weights.
    pub fn clear_weight_sets(&mut self)
        requires
            old(self).wf(),
        ensures
            final(self).wf(),
            final(self).origins() == old(self).origins(),
            final(self).cache_limit() == old(self).cache_limit(),
            final(self).kept() == old(self).kept(),
            final(self).most() == old(self).most(),
            final(self)@ == (ModelView { weight_sets: None, ..old(self)@ }),
    {
        self.cached_weight_sets = None;
    }

    /// Whether neighbouring unknown pieces are fused. Starts with a fresh cache.
    pub fn set_fuse_unk(&mut self, fuse_unk: bool)
        requires
            old(self).wf(),
        ensures
            final(self).wf(),
            final(self)@ == (ModelView {
                encoder: Encoder { fuse_unk, ..old(self)@.encoder },
                ..old(self)@
            }),
            final(self).is_current(),
            final(self).cache_limit() == old(self).cache_limit(),
            final(self).kept() == Set::<Seq<char>>::empty(),
            final(self).most() == old(self).cache_limit(),
    {
        self.fuse_unk = fuse_unk;
        self.drop_results();
    }

    /// Whether sentences are encoded in one pass or by way of a lattice. Results that are in the
    /// cache stay there.
    pub fn set_optimized(&mut self, is_optimized: bool)
        requires
            old(self).wf(),
        ensures
            final(self).wf(),
            final(self)@ == (ModelView {
                encoder: Encoder { is_optimized, ..old(self)@.encoder },
                ..old(self)@
            }),
            final(self).origins() == old(self).origins().insert(final(self)@.encoder),
            final(self).cache_limit() == old(self).cache_limit(),
            old(self).kept().subset_of(final(self).kept()),
            final(self).most() <= old(self).most(),
    {
        self.is_optimized = is_optimized;
        self.keep_cache();
    }

    /// The score that those of unknown characters are measured from.
    pub fn min_score(&self) -> (score: Double)
        ensures
            score == self@.encoder.min_score,
    {
        self.min_score
    }

    /// Changes the score that those of unknown characters are measured from. Results that are in
    /// the cache stay there.
    pub fn set_min_score(&mut self, min_score: Double)
        requires
            old(self).wf(),
        ensures
            final(self).wf(),
            final(self)@ == (ModelView {
                encoder: Encoder { min_score, ..old(self)@.encoder },
                ..old(self)@
            }),
            final(self).origins() == old(self).origins().insert(final(self)@.encoder),
            final(self).cache_limit() == old(self).cache_limit(),
            old(self).kept().subset_of(final(self).kept()),
            final(self).most() <= old(self).most(),
    {
        self.min_score = min_score;
        self.keep_cache();
    }

    /// Clears the cache: from then on, every result is that of the model as it is.
    pub fn clear_cache(&mut self)
        requires
            old(self).wf(),
        ensures
            final(self).wf(),
            final(self)@ == old(self)@,
            final(self).is_current(),
            final(self).cache_limit() == old(self).cache_limit(),
            final(self).kept() == Set::<Seq<char>>::empty(),
            final(self).most() == old(self).cache_limit(),
    {
        self.drop_results();
    }

    /// Changes how many results the cache holds at most.
    pub fn resize_cache(&mut self, capacity: usize)
        requires
            old(self).wf(),
        ensures
            final(self).wf(),
            final(self)@ == old(self)@,
            final(self).origins() == old(self).origins(),
            final(self).cache_limit() == capacity,
            final(self).kept() == old(self).kept(),
            final(self).most() == (if old(self).most() < capacity {
                capacity as nat
            } else {
                old(self).most()
            }),
    {
        self.cache.resize(capacity);
    }

    /// Starts with a fresh cache.
    fn drop_results(&mut self)
        requires
            old(self).in_order(),
        ensures
            final(self).wf(),
            final(self)@ == old(self)@,
            final(self).is_current(),
            final(self).cache_limit() == old(self).cache_limit(),
            final(self).kept() == Set::<Seq<char>>::empty(),
            final(self).most() == old(self).cache_limit(),
    {
        let ghost origins = set![self@.encoder];
        self.cache.clear(Ghost(encoded_pairs(origins)));
        self.origins = Ghost(origins);
    }

    /// Lets the results of the model as it is into the cache, beside those that are there.
    fn keep_cache(&mut self)
        requires
            old(self).in_order(),
            old(self).cache.allowed() == encoded_pairs(old(self).origins@),
            are_alike(old(self).origins@, old(self)@.encoder),
        ensures
            final(self).wf(),
            final(self)@ == old(self)@,
            final(self).origins() == old(self).origins().insert(old(self)@.encoder),
            final(self).cache_limit() == old(self).cache_limit(),
            old(self).kept().subset_of(final(self).kept()),
            final(self).most() <= old(self).most(),
    {
        let ghost before = self.origins@;
        let ghost origins = before.insert(self@.encoder);
        proof {
            assert forall|pair: (Seq<char>, Seq<Seq<char>>)|
                encoded_pairs(before).contains(pair) implies encoded_pairs(origins).contains(pair) by {
                let origin = choose|origin: Encoder| #[trigger]
                    before.contains(origin) && is_encoding(origin, pair.0, pair.1);
                assert(origins.contains(origin));
            }
        }
        self.cache.widen(Ghost(encoded_pairs(origins)));
        self.origins = Ghost(origins);
    }
}

} // verus!
