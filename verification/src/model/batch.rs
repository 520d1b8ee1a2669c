//! Many sentences at once, in parallel.

use super::Unigram;
use crate::error::UnigramError;
use crate::parallel::try_map;
use crate::prepared_dp::computes;
use crate::single::Single;
use crate::weight_sets::{
    computes_power, gives_outcome, gives_tokens, outcome_of, ModelView, Outcome,
};
use vstd::prelude::*;
use vstd::utf8::encode_utf8;

verus! {

/// Each result is the one expected for its sentence; an error is one that is expected for some
/// sentence, or that there are no sets of weights.
pub open spec fn gives_each(
    m: ModelView,
    sentences: Seq<String>,
    result: Result<Vec<(usize, Vec<String>, Single)>, UnigramError>,
    expected: spec_fn(Seq<char>) -> Result<Outcome, UnigramError>,
) -> bool {
    match result {
        Ok(found) => {
            &&& m.weight_sets is Some
            &&& found@.len() == sentences.len()
            &&& forall|i: int|
                0 <= i < sentences.len() ==> expected(sentences[i]@) == Ok::<Outcome, UnigramError>(
                    outcome_of(#[trigger] found@[i]),
                )
        },
        Err(error) => {
            ||| m.weight_sets is None && error == UnigramError::NoCachedWeights
            ||| exists|i: int|
                0 <= i < sentences.len() && expected((#[trigger] sentences[i])@) == Err::<
                    Outcome,
                    UnigramError,
                >(error)
        },
    }
}

impl Unigram {
    /// `best_of_cached_weight_sets` of each sentence, in parallel.
    pub fn best_of_cached_weight_sets_batch(&self, sentences: &[String]) -> (result: Result<
        Vec<(usize, Vec<String>, Single)>,
        UnigramError,
    >)
        requires
            self.wf(),
            forall|i: int|
                0 <= i < sentences@.len() ==> self@.can_choose(
                    (#[trigger] sentences@[i])@,
                    self@.plain_index(sentences@[i]@),
                ),
        ensures
            gives_each(
                self@,
                sentences@,
                result,
                |sentence: Seq<char>| self@.best_plain(sentence),
            ),
    {
        if self.cached_weight_sets.is_none() {
            return Err(UnigramError::NoCachedWeights);
        }
        let call = |sentence: &String| -> (result: Result<(usize, Vec<String>, Single), UnigramError>)
            requires
                self.wf(),
                self@.can_choose(sentence@, self@.plain_index(sentence@)),
            ensures
                gives_outcome(result, self@.best_plain(sentence@)),
        {
            self.best_of_cached_weight_sets(sentence.as_str())
        };
        try_map(sentences, call)
    }

    /// `best_of_cached_weight_sets_biased` of each sentence, in parallel.
    pub fn best_of_cached_weight_sets_biased_batch(
        &self,
        sentences: &[String],
        biases: &[Single],
    ) -> (result: Result<Vec<(usize, Vec<String>, Single)>, UnigramError>)
        requires
            self.wf(),
            forall|i: int|
                0 <= i < sentences@.len() ==> self@.can_choose(
                    (#[trigger] sentences@[i])@,
                    self@.biased_index(sentences@[i]@, biases@),
                ),
        ensures
            gives_each(
                self@,
                sentences@,
                result,
                |sentence: Seq<char>| self@.best_biased(sentence, biases@),
            ),
    {
        if self.cached_weight_sets.is_none() {
            return Err(UnigramError::NoCachedWeights);
        }
        let call = |sentence: &String| -> (result: Result<(usize, Vec<String>, Single), UnigramError>)
            requires
                self.wf(),
                self@.can_choose(sentence@, self@.biased_index(sentence@, biases@)),
            ensures
                gives_outcome(result, self@.best_biased(sentence@, biases@)),
        {
            self.best_of_cached_weight_sets_biased(sentence.as_str(), biases)
        };
        try_map(sentences, call)
    }

    /// `best_of_cached_weight_sets_normalized` of each sentence, in parallel.
    pub fn best_of_cached_weight_sets_normalized_batch<P: Fn(Single, Single) -> Single + Sync + Send>(
        &self,
        sentences: &[String],
        alpha: Single,
        powf: &P,
    ) -> (result: Result<Vec<(usize, Vec<String>, Single)>, UnigramError>)
        requires
            self.wf(),
            forall|x: Single, y: Single| #[trigger] call_requires(*powf, (x, y)),
            forall|i: int|
                0 <= i < sentences@.len() && self@.early((#[trigger] sentences@[i])@) is None
                    ==> encode_utf8(sentences@[i]@).len() <= u32::MAX,
            exists|function: spec_fn(Single, Single) -> Single| #[trigger]
                computes_power(*powf, function) && forall|i: int|
                    0 <= i < sentences@.len() ==> self@.can_choose(
                        (#[trigger] sentences@[i])@,
                        self@.normalized_winner(sentences@[i]@, function, alpha).index,
                    ),
        ensures
            forall|function: spec_fn(Single, Single) -> Single| #[trigger]
                computes_power(*powf, function) ==> gives_each(
                    self@,
                    sentences@,
                    result,
                    |sentence: Seq<char>| self@.best_normalized(sentence, function, alpha),
                ),
    {
        if self.cached_weight_sets.is_none() {
            return Err(UnigramError::NoCachedWeights);
        }
        let call = |sentence: &String| -> (result: Result<(usize, Vec<String>, Single), UnigramError>)
            requires
                self.wf(),
                forall|x: Single, y: Single| #[trigger] call_requires(*powf, (x, y)),
                self@.early(sentence@) is None ==> encode_utf8(sentence@).len() <= u32::MAX,
                exists|function: spec_fn(Single, Single) -> Single| #[trigger]
                    computes_power(*powf, function) && self@.can_choose(
                        sentence@,
                        self@.normalized_winner(sentence@, function, alpha).index,
                    ),
            ensures
                forall|function: spec_fn(Single, Single) -> Single| #[trigger]
                    computes_power(*powf, function) ==> gives_outcome(
                        result,
                        self@.best_normalized(sentence@, function, alpha),
                    ),
        {
            self.best_of_cached_weight_sets_normalized(sentence.as_str(), alpha, powf)
        };
        try_map(sentences, call)
    }

    /// `best_of_cached_weight_sets_forward` of each sentence, in parallel.
    pub fn best_of_cached_weight_sets_forward_batch<F: Fn(Single) -> Single + Sync + Send>(
        &self,
        sentences: &[String],
        log_1p_exp: &F,
    ) -> (result: Result<Vec<(usize, Vec<String>, Single)>, UnigramError>)
        requires
            self.wf(),
            forall|x: Single| #[trigger] call_requires(*log_1p_exp, (x,)),
            exists|function: spec_fn(Single) -> Single| #[trigger]
                computes(*log_1p_exp, function) && forall|i: int|
                    0 <= i < sentences@.len() ==> self@.can_choose(
                        (#[trigger] sentences@[i])@,
                        self@.forward_winner(sentences@[i]@, function).index,
                    ),
        ensures
            forall|function: spec_fn(Single) -> Single| #[trigger]
                computes(*log_1p_exp, function) ==> gives_each(
                    self@,
                    sentences@,
                    result,
                    |sentence: Seq<char>| self@.best_forward(sentence, function),
                ),
    {
        if self.cached_weight_sets.is_none() {
            return Err(UnigramError::NoCachedWeights);
        }
        let call = |sentence: &String| -> (result: Result<(usize, Vec<String>, Single), UnigramError>)
            requires
                self.wf(),
                forall|x: Single| #[trigger] call_requires(*log_1p_exp, (x,)),
                exists|function: spec_fn(Single) -> Single| #[trigger]
                    computes(*log_1p_exp, function) && self@.can_choose(
                        sentence@,
                        self@.forward_winner(sentence@, function).index,
                    ),
            ensures
                forall|function: spec_fn(Single) -> Single| #[trigger]
                    computes(*log_1p_exp, function) ==> gives_outcome(
                        result,
                        self@.best_forward(sentence@, function),
                    ),
        {
            self.best_of_cached_weight_sets_forward(sentence.as_str(), log_1p_exp)
        };
        try_map(sentences, call)
    }

    /// `top_k_of_cached_weight_sets` of each sentence, in parallel.
    pub fn top_k_of_cached_weight_sets_batch(&self, sentences: &[String], k: usize) -> (result: Result<
        Vec<Vec<(usize, Single)>>,
        UnigramError,
    >)
        requires
            self.wf(),
        ensures
            match result {
                Ok(found) => {
                    &&& self@.weight_sets is Some
                    &&& found@.len() == sentences@.len()
                    &&& forall|i: int|
                        0 <= i < sentences@.len() ==> self@.gives_top(
                            sentences@[i]@,
                            k as int,
                            Ok(#[trigger] found@[i]),
                        )
                },
                Err(error) => {
                    ||| self@.weight_sets is None && error == UnigramError::NoCachedWeights
                    ||| exists|i: int|
                        0 <= i < sentences@.len() && self@.gives_top(
                            (#[trigger] sentences@[i])@,
                            k as int,
                            Err(error),
                        )
                },
            },
    {
        if self.cached_weight_sets.is_none() {
            return Err(UnigramError::NoCachedWeights);
        }
        let call = |sentence: &String| -> (result: Result<Vec<(usize, Single)>, UnigramError>)
            requires
                self.wf(),
            ensures
                self@.gives_top(sentence@, k as int, result),
        {
            self.top_k_of_cached_weight_sets(sentence.as_str(), k)
        };
        try_map(sentences, call)
    }

    /// `tokens_of_cached_weight_set` of each sentence with the index that stands at its place, in
    /// parallel.
    pub fn tokens_of_cached_weight_set_batch(&self, sentences: &[String], indices: &[usize]) -> (result:
        Result<Vec<(Vec<String>, Single)>, UnigramError>)
        requires
            self.wf(),
            sentences@.len() == indices@.len() ==> forall|i: int|
                0 <= i < sentences@.len() ==> self@.can_segment_by(
                    (#[trigger] sentences@[i])@,
                    indices@[i] as int,
                ),
        ensures
            match result {
                Ok(found) => {
                    &&& self@.weight_sets is Some
                    &&& sentences@.len() == indices@.len() == found@.len()
                    &&& forall|i: int|
                        0 <= i < sentences@.len() ==> gives_tokens(
                            Ok(#[trigger] found@[i]),
                            self@.tokens_by(sentences@[i]@, indices@[i] as int),
                        )
                },
                Err(error) => if self@.weight_sets is None {
                    error == UnigramError::NoCachedWeights
                } else if sentences@.len() != indices@.len() {
                    error == UnigramError::MismatchedBatchLength {
                        sentences: sentences@.len() as usize,
                        indices: indices@.len() as usize,
                    }
                } else {
                    exists|i: int|
                        0 <= i < sentences@.len() && gives_tokens(
                            Err(error),
                            self@.tokens_by((#[trigger] sentences@[i])@, indices@[i] as int),
                        )
                },
            },
    {
        if self.cached_weight_sets.is_none() {
            return Err(UnigramError::NoCachedWeights);
        }
        if sentences.len() != indices.len() {
            return Err(
                UnigramError::MismatchedBatchLength {
                    sentences: sentences.len(),
                    indices: indices.len(),
                },
            );
        }
        let places: Vec<usize> = places_of(sentences.len());
        let call = |place: &usize| -> (result: Result<(Vec<String>, Single), UnigramError>)
            requires
                self.wf(),
                *place < sentences@.len(),
                sentences@.len() == indices@.len(),
                self@.can_segment_by(sentences@[*place as int]@, indices@[*place as int] as int),
            ensures
                gives_tokens(
                    result,
                    self@.tokens_by(sentences@[*place as int]@, indices@[*place as int] as int),
                ),
        {
            self.tokens_of_cached_weight_set(sentences[*place].as_str(), indices[*place])
        };
        let result = try_map(places.as_slice(), call);
        proof {
            match result {
                Ok(_) => {},
                Err(error) => {
                    let i = choose|i: int|
                        0 <= i < places@.len() && gives_tokens(
                            Err(error),
                            self@.tokens_by(
                                sentences@[(#[trigger] places@[i]) as int]@,
                                indices@[places@[i] as int] as int,
                            ),
                        );
                    assert(places@[i] == i);
                },
            }
        }
        result
    }
}

/// The places of a list.
fn places_of(len: usize) -> (places: Vec<usize>)
    ensures
        places@.len() == len,
        forall|i: int| 0 <= i < len ==> (#[trigger] places@[i]) == i,
{
    let mut places: Vec<usize> = Vec::new();
    let mut i: usize = 0;
    while i < len
        invariant
            i <= len,
            places@.len() == i,
            forall|j: int| 0 <= j < i ==> (#[trigger] places@[j]) == j,
        decreases len - i,
    {
        places.push(i);
        i = i + 1;
    }
    places
}

} // verus!
