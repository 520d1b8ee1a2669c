//! Choosing among the cached sets of weights.

use super::{sets_of, Unigram};
use crate::cache::texts_of;
use crate::double::Double;
use crate::error::UnigramError;
use crate::prepared_dp::{computes, PreparedDP};
use crate::ranking::{largest, pick};
use crate::single::Single;
use crate::vocabulary::lemma_graph;
use crate::weight_sets::{
    all_of_length, computes_power, empty_outcome, given_sets, gives_checked, gives_given,
    gives_outcome, gives_tokens, is_first_mismatch, lemma_first_mismatch, narrowed_sets,
    narrowed_weights, outcome_of,
};
use vstd::prelude::*;
use vstd::utf8::{encode_utf8, encode_utf8_valid_utf8};

verus! {

impl Unigram {
    /// The score of an unknown character, in single precision.
    fn unk_single(&self) -> (score: Single)
        ensures
            score == self@.encoder.unk_score().narrowed(),
    {
        self.unk_score().to_single()
    }

    /// Every edge of a sentence has a weight in a set of weights.
    proof fn lemma_weighted(&self, sentence: Seq<char>, prepared: PreparedDP, weights: Seq<Single>)
        requires
            self.wf(),
            self@.encoder.unk_id is Some,
            prepared.graph() == self@.graph(sentence),
            prepared.text() == sentence,
            encode_utf8(sentence).len() <= usize::MAX,
            weights.len() == self@.encoder.vocab.len(),
        ensures
            prepared.weighted(self@.weighting(weights)),
    {
        encode_utf8_valid_utf8(sentence);
        lemma_graph(self@.encoder.vocab, self@.encoder.unk_id, encode_utf8(sentence));
    }

    /// The best scores of a sentence, by each set.
    fn scores(&self, sentence: &str, prepared: &PreparedDP, unk_id: usize, sets: &Vec<Vec<Single>>) -> (scores:
        Vec<Single>)
        requires
            self.wf(),
            self@.encoder.unk_id == Some(unk_id),
            prepared.wf(),
            prepared.text() == sentence@,
            prepared.graph() == self@.graph(sentence@),
            all_of_length(sets_of(sets@), self@.encoder.vocab.len()),
        ensures
            scores@ == self@.plain_scores(sentence@, sets_of(sets@)),
    {
        let len: usize = sentence.as_bytes().len();
        let unk_score: Single = self.unk_single();
        let mut scores: Vec<Single> = Vec::new();
        let mut i: usize = 0;
        while i < sets.len()
            invariant
                self.wf(),
                self@.encoder.unk_id == Some(unk_id),
                prepared.wf(),
                prepared.text() == sentence@,
                prepared.graph() == self@.graph(sentence@),
                len == encode_utf8(sentence@).len(),
                all_of_length(sets_of(sets@), self@.encoder.vocab.len()),
                unk_score == self@.encoder.unk_score().narrowed(),
                i <= sets@.len(),
                scores@ =~= self@.plain_scores(sentence@, sets_of(sets@)).take(i as int),
            decreases sets.len() - i,
        {
            proof {
                assert(sets_of(sets@)[i as int] == sets@[i as int]@);
                self.lemma_weighted(sentence@, *prepared, sets@[i as int]@);
            }
            scores.push(prepared.score_only_f32(&sets[i], unk_id, unk_score));
            i = i + 1;
        }
        scores
    }

    /// The scores of the vocabulary, as a set of weights.
    fn own_weights(&self) -> (weights: Vec<Single>)
        ensures
            weights@ == self@.own_weights(),
    {
        let mut weights: Vec<Single> = Vec::new();
        let mut i: usize = 0;
        while i < self.vocab.len()
            invariant
                i <= self.vocab@.len(),
                weights@ =~= self@.own_weights().take(i as int),
            decreases self.vocab.len() - i,
        {
            weights.push(self.vocab[i].1.to_single());
            i = i + 1;
        }
        weights
    }

    /// The segmentation by the chosen set; nothing where there is none.
    fn segmented(
        &self,
        sentence: &str,
        prepared: &PreparedDP,
        unk_id: usize,
        sets: &Vec<Vec<Single>>,
        index: usize,
    ) -> (result: Option<(Vec<String>, Single)>)
        requires
            self.wf(),
            self@.encoder.unk_id == Some(unk_id),
            prepared.wf(),
            prepared.text() == sentence@,
            prepared.graph() == self@.graph(sentence@),
            all_of_length(sets_of(sets@), self@.encoder.vocab.len()),
            sets@.len() > 0 ==> index < sets@.len(),
        ensures
            ({
                let weights = self@.chosen(sets_of(sets@), index as int);
                match result {
                    Some(found) => {
                        &&& self@.segmentable(sentence@, weights)
                        &&& texts_of(found.0@) == self@.best_tokens(sentence@, weights)
                        &&& found.1 == self@.best_score(sentence@, weights)
                    },
                    None => !self@.segmentable(sentence@, weights),
                }
            }),
    {
        let len: usize = sentence.as_bytes().len();
        let unk_score: Single = self.unk_single();
        proof {
            self.lemma_weighted(
                sentence@,
                *prepared,
                self@.chosen(sets_of(sets@), index as int),
            );
        }
        if sets.len() == 0 {
            let own: Vec<Single> = self.own_weights();
            prepared.checked_tokens_and_score_f32(&own, unk_id, unk_score, self.fuse_unk)
        } else {
            prepared.checked_tokens_and_score_f32(&sets[index], unk_id, unk_score, self.fuse_unk)
        }
    }

    /// Like `best_of_cached_weight_sets`; nothing where the chosen set gives no segmentation.
    pub fn checked_best_of_cached_weight_sets(&self, sentence: &str) -> (result: Result<
        Option<(usize, Vec<String>, Single)>,
        UnigramError,
    >)
        requires
            self.wf(),
        ensures
            gives_checked(
                result,
                self@.best_plain(sentence@),
                self@.can_choose(sentence@, self@.plain_index(sentence@)),
            ),
    {
        let sets: &Vec<Vec<Single>> = match &self.cached_weight_sets {
            Some(sets) => sets,
            None => {
                return Err(UnigramError::NoCachedWeights);
            },
        };
        if sentence.is_empty() {
            return Ok(Some(empty()));
        }
        let unk_id: usize = match self.unk_id {
            Some(unk_id) => unk_id,
            None => {
                return Err(UnigramError::MissingUnkId);
            },
        };
        let prepared = self.prepare_dp(sentence);
        let scores: Vec<Single> = self.scores(sentence, &prepared, unk_id, sets);
        let (index, _) = pick(&scores);
        match self.segmented(sentence, &prepared, unk_id, sets, index) {
            Some((tokens, score)) => Ok(Some((index, tokens, score))),
            None => Ok(None),
        }
    }

    /// The first of the cached sets that gives the sentence the largest score, with the tokens
    /// and the score of its best segmentation.
    pub fn best_of_cached_weight_sets(&self, sentence: &str) -> (result: Result<
        (usize, Vec<String>, Single),
        UnigramError,
    >)
        requires
            self.wf(),
            self@.can_choose(sentence@, self@.plain_index(sentence@)),
        ensures
            gives_outcome(result, self@.best_plain(sentence@)),
    {
        settle(self.checked_best_of_cached_weight_sets(sentence))
    }

    /// Like `best_of_cached_weight_sets_biased`; nothing where the chosen set gives no
    /// segmentation.
    pub fn checked_best_of_cached_weight_sets_biased(&self, sentence: &str, biases: &[Single]) -> (result:
        Result<Option<(usize, Vec<String>, Single)>, UnigramError>)
        requires
            self.wf(),
        ensures
            gives_checked(
                result,
                self@.best_biased(sentence@, biases@),
                self@.can_choose(sentence@, self@.biased_index(sentence@, biases@)),
            ),
    {
        let sets: &Vec<Vec<Single>> = match &self.cached_weight_sets {
            Some(sets) => sets,
            None => {
                return Err(UnigramError::NoCachedWeights);
            },
        };
        if sentence.is_empty() {
            return Ok(Some(empty()));
        }
        let unk_id: usize = match self.unk_id {
            Some(unk_id) => unk_id,
            None => {
                return Err(UnigramError::MissingUnkId);
            },
        };
        let prepared = self.prepare_dp(sentence);
        let plain: Vec<Single> = self.scores(sentence, &prepared, unk_id, sets);
        let ghost all = self@.biased_scores(sentence@, sets_of(sets@), biases@);
        let mut biased: Vec<Single> = Vec::new();
        let mut i: usize = 0;
        while i < plain.len()
            invariant
                plain@ == self@.plain_scores(sentence@, sets_of(sets@)),
                all == self@.biased_scores(sentence@, sets_of(sets@), biases@),
                i <= plain@.len(),
                biased@ =~= all.take(i as int),
            decreases plain.len() - i,
        {
            let bias: Single = if i < biases.len() {
                biases[i]
            } else {
                Single::zero()
            };
            biased.push(plain[i].add(&bias));
            i = i + 1;
        }
        assert(biased@ =~= all);
        let (index, _) = pick(&biased);
        match self.segmented(sentence, &prepared, unk_id, sets, index) {
            Some((tokens, score)) => Ok(Some((index, tokens, score))),
            None => Ok(None),
        }
    }

    /// Like `best_of_cached_weight_sets`, but adds a bias to the score of each set before the
    /// largest is found. A bias that is missing is zero. The score returned is without bias.
    pub fn best_of_cached_weight_sets_biased(&self, sentence: &str, biases: &[Single]) -> (result:
        Result<(usize, Vec<String>, Single), UnigramError>)
        requires
            self.wf(),
            self@.can_choose(sentence@, self@.biased_index(sentence@, biases@)),
        ensures
            gives_outcome(result, self@.best_biased(sentence@, biases@)),
    {
        settle(self.checked_best_of_cached_weight_sets_biased(sentence, biases))
    }

    /// The normalized scores of a sentence, by each set.
    fn normalized<P: Fn(Single, Single) -> Single>(
        &self,
        sentence: &str,
        prepared: &PreparedDP,
        unk_id: usize,
        sets: &Vec<Vec<Single>>,
        alpha: Single,
        powf: &P,
    ) -> (scores: Vec<Single>)
        requires
            self.wf(),
            self@.encoder.unk_id == Some(unk_id),
            prepared.wf(),
            prepared.text() == sentence@,
            prepared.graph() == self@.graph(sentence@),
            all_of_length(sets_of(sets@), self@.encoder.vocab.len()),
            encode_utf8(sentence@).len() <= u32::MAX,
            forall|x: Single, y: Single| #[trigger] call_requires(*powf, (x, y)),
        ensures
            forall|function: spec_fn(Single, Single) -> Single| #[trigger]
                computes_power(*powf, function) ==> scores@ == self@.normalized_scores(
                    sentence@,
                    sets_of(sets@),
                    function,
                    alpha,
                ),
            scores@.len() == sets@.len(),
    {
        let len: usize = sentence.as_bytes().len();
        let unk_score: Single = self.unk_single();
        let mut scores: Vec<Single> = Vec::new();
        let mut i: usize = 0;
        while i < sets.len()
            invariant
                self.wf(),
                self@.encoder.unk_id == Some(unk_id),
                prepared.wf(),
                prepared.text() == sentence@,
                prepared.graph() == self@.graph(sentence@),
                len == encode_utf8(sentence@).len(),
                len <= u32::MAX,
                all_of_length(sets_of(sets@), self@.encoder.vocab.len()),
                unk_score == self@.encoder.unk_score().narrowed(),
                forall|x: Single, y: Single| #[trigger] call_requires(*powf, (x, y)),
                i <= sets@.len(),
                scores@.len() == i,
                forall|function: spec_fn(Single, Single) -> Single| #[trigger]
                    computes_power(*powf, function) ==> scores@ =~= self@.normalized_scores(
                        sentence@,
                        sets_of(sets@),
                        function,
                        alpha,
                    ).take(i as int),
            decreases sets.len() - i,
        {
            proof {
                assert(sets_of(sets@)[i as int] == sets@[i as int]@);
                self.lemma_weighted(sentence@, *prepared, sets@[i as int]@);
            }
            let (score, count) = prepared.score_and_count_f32(&sets[i], unk_id, unk_score);
            let normalized: Single = if count > 0 {
                score.div(&powf(Single::from_u32(count), alpha))
            } else {
                Single::neg_infinity()
            };
            scores.push(normalized);
            i = i + 1;
        }
        proof {
            assert forall|function: spec_fn(Single, Single) -> Single| #[trigger]
                computes_power(*powf, function) implies scores@ == self@.normalized_scores(
                sentence@,
                sets_of(sets@),
                function,
                alpha,
            ) by {
                assert(scores@ =~= self@.normalized_scores(
                    sentence@,
                    sets_of(sets@),
                    function,
                    alpha,
                ));
            }
        }
        scores
    }

    /// Like `best_of_cached_weight_sets_normalized`; nothing where the chosen set gives no
    /// segmentation.
    pub fn checked_best_of_cached_weight_sets_normalized<P: Fn(Single, Single) -> Single>(
        &self,
        sentence: &str,
        alpha: Single,
        powf: &P,
    ) -> (result: Result<Option<(usize, Vec<String>, Single)>, UnigramError>)
        requires
            self.wf(),
            self@.early(sentence@) is None ==> encode_utf8(sentence@).len() <= u32::MAX,
            forall|x: Single, y: Single| #[trigger] call_requires(*powf, (x, y)),
        ensures
            self@.gives_choice(sentence@, result),
            forall|function: spec_fn(Single, Single) -> Single| #[trigger]
                computes_power(*powf, function) ==> gives_checked(
                    result,
                    self@.best_normalized(sentence@, function, alpha),
                    self@.can_choose(
                        sentence@,
                        self@.normalized_winner(sentence@, function, alpha).index,
                    ),
                ),
    {
        let sets: &Vec<Vec<Single>> = match &self.cached_weight_sets {
            Some(sets) => sets,
            None => {
                return Err(UnigramError::NoCachedWeights);
            },
        };
        if sentence.is_empty() {
            return Ok(Some(empty()));
        }
        let unk_id: usize = match self.unk_id {
            Some(unk_id) => unk_id,
            None => {
                return Err(UnigramError::MissingUnkId);
            },
        };
        let prepared = self.prepare_dp(sentence);
        let scores: Vec<Single> = self.normalized(sentence, &prepared, unk_id, sets, alpha, powf);
        let (index, best_norm) = pick(&scores);
        match self.segmented(sentence, &prepared, unk_id, sets, index) {
            Some((tokens, _)) => Ok(Some((index, tokens, best_norm))),
            None => Ok(None),
        }
    }

    /// Like `best_of_cached_weight_sets`, but chooses by the score divided by a power of the
    /// number of edges in the best segmentation, counted before unknown pieces are fused. The
    /// closure raises its first argument to the power of its second. The score returned is the
    /// one by which the set was chosen.
    pub fn best_of_cached_weight_sets_normalized<P: Fn(Single, Single) -> Single>(
        &self,
        sentence: &str,
        alpha: Single,
        powf: &P,
    ) -> (result: Result<(usize, Vec<String>, Single), UnigramError>)
        requires
            self.wf(),
            self@.early(sentence@) is None ==> encode_utf8(sentence@).len() <= u32::MAX,
            forall|x: Single, y: Single| #[trigger] call_requires(*powf, (x, y)),
            exists|function: spec_fn(Single, Single) -> Single| #[trigger]
                computes_power(*powf, function) && self@.can_choose(
                    sentence@,
                    self@.normalized_winner(sentence@, function, alpha).index,
                ),
        ensures
            forall|function: spec_fn(Single, Single) -> Single| #[trigger]
                computes_power(*powf, function) ==> gives_outcome(
                    result,
                    self@.best_normalized(sentence@, function, alpha),
                ),
    {
        settle(self.checked_best_of_cached_weight_sets_normalized(sentence, alpha, powf))
    }

    /// The forward scores of a sentence, by each set.
    fn forwards<F: Fn(Single) -> Single>(
        &self,
        sentence: &str,
        prepared: &PreparedDP,
        unk_id: usize,
        sets: &Vec<Vec<Single>>,
        log_1p_exp: &F,
    ) -> (scores: Vec<Single>)
        requires
            self.wf(),
            self@.encoder.unk_id == Some(unk_id),
            prepared.wf(),
            prepared.text() == sentence@,
            prepared.graph() == self@.graph(sentence@),
            all_of_length(sets_of(sets@), self@.encoder.vocab.len()),
            forall|x: Single| #[trigger] call_requires(*log_1p_exp, (x,)),
        ensures
            forall|function: spec_fn(Single) -> Single| #[trigger]
                computes(*log_1p_exp, function) ==> scores@ == self@.forward_scores(
                    sentence@,
                    sets_of(sets@),
                    function,
                ),
            scores@.len() == sets@.len(),
    {
        let len: usize = sentence.as_bytes().len();
        let unk_score: Single = self.unk_single();
        let mut scores: Vec<Single> = Vec::new();
        let mut i: usize = 0;
        while i < sets.len()
            invariant
                self.wf(),
                self@.encoder.unk_id == Some(unk_id),
                prepared.wf(),
                prepared.text() == sentence@,
                prepared.graph() == self@.graph(sentence@),
                len == encode_utf8(sentence@).len(),
                all_of_length(sets_of(sets@), self@.encoder.vocab.len()),
                unk_score == self@.encoder.unk_score().narrowed(),
                forall|x: Single| #[trigger] call_requires(*log_1p_exp, (x,)),
                i <= sets@.len(),
                scores@.len() == i,
                forall|function: spec_fn(Single) -> Single| #[trigger]
                    computes(*log_1p_exp, function) ==> scores@ =~= self@.forward_scores(
                        sentence@,
                        sets_of(sets@),
                        function,
                    ).take(i as int),
            decreases sets.len() - i,
        {
            proof {
                assert(sets_of(sets@)[i as int] == sets@[i as int]@);
                self.lemma_weighted(sentence@, *prepared, sets@[i as int]@);
            }
            scores.push(prepared.forward_score_f32(&sets[i], unk_id, unk_score, log_1p_exp));
            i = i + 1;
        }
        proof {
            assert forall|function: spec_fn(Single) -> Single| #[trigger]
                computes(*log_1p_exp, function) implies scores@ == self@.forward_scores(
                sentence@,
                sets_of(sets@),
                function,
            ) by {
                assert(scores@ =~= self@.forward_scores(sentence@, sets_of(sets@), function));
            }
        }
        scores
    }

    /// Like `best_of_cached_weight_sets_forward`; nothing where the chosen set gives no
    /// segmentation.
    pub fn checked_best_of_cached_weight_sets_forward<F: Fn(Single) -> Single>(
        &self,
        sentence: &str,
        log_1p_exp: &F,
    ) -> (result: Result<Option<(usize, Vec<String>, Single)>, UnigramError>)
        requires
            self.wf(),
            forall|x: Single| #[trigger] call_requires(*log_1p_exp, (x,)),
        ensures
            self@.gives_choice(sentence@, result),
            forall|function: spec_fn(Single) -> Single| #[trigger]
                computes(*log_1p_exp, function) ==> gives_checked(
                    result,
                    self@.best_forward(sentence@, function),
                    self@.can_choose(sentence@, self@.forward_winner(sentence@, function).index),
                ),
    {
        let sets: &Vec<Vec<Single>> = match &self.cached_weight_sets {
            Some(sets) => sets,
            None => {
                return Err(UnigramError::NoCachedWeights);
            },
        };
        if sentence.is_empty() {
            return Ok(Some(empty()));
        }
        let unk_id: usize = match self.unk_id {
            Some(unk_id) => unk_id,
            None => {
                return Err(UnigramError::MissingUnkId);
            },
        };
        let prepared = self.prepare_dp(sentence);
        let scores: Vec<Single> = self.forwards(sentence, &prepared, unk_id, sets, log_1p_exp);
        let (index, best_score) = pick(&scores);
        match self.segmented(sentence, &prepared, unk_id, sets, index) {
            Some((tokens, _)) => Ok(Some((index, tokens, best_score))),
            None => Ok(None),
        }
    }

    /// Like `best_of_cached_weight_sets`, but chooses by the score over all segmentations
    /// instead of that of the best one. The closure computes `log(1 + exp(x))`. The score
    /// returned is the one by which the set was chosen; the tokens are those of the best
    /// segmentation.
    pub fn best_of_cached_weight_sets_forward<F: Fn(Single) -> Single>(
        &self,
        sentence: &str,
        log_1p_exp: &F,
    ) -> (result: Result<(usize, Vec<String>, Single), UnigramError>)
        requires
            self.wf(),
            forall|x: Single| #[trigger] call_requires(*log_1p_exp, (x,)),
            exists|function: spec_fn(Single) -> Single| #[trigger]
                computes(*log_1p_exp, function) && self@.can_choose(
                    sentence@,
                    self@.forward_winner(sentence@, function).index,
                ),
        ensures
            forall|function: spec_fn(Single) -> Single| #[trigger]
                computes(*log_1p_exp, function) ==> gives_outcome(
                    result,
                    self@.best_forward(sentence@, function),
                ),
    {
        settle(self.checked_best_of_cached_weight_sets_forward(sentence, log_1p_exp))
    }

    /// Like `tokens_of_cached_weight_set`; nothing where the set gives no segmentation.
    pub fn checked_tokens_of_cached_weight_set(&self, sentence: &str, index: usize) -> (result: Result<
        Option<(Vec<String>, Single)>,
        UnigramError,
    >)
        requires
            self.wf(),
        ensures
            match result {
                Ok(Some(found)) => self@.can_segment_by(sentence@, index as int)
                    && gives_tokens(Ok(found), self@.tokens_by(sentence@, index as int)),
                Ok(None) => !self@.can_segment_by(sentence@, index as int),
                Err(error) => gives_tokens(Err(error), self@.tokens_by(sentence@, index as int)),
            },
    {
        let sets: &Vec<Vec<Single>> = match &self.cached_weight_sets {
            Some(sets) => sets,
            None => {
                return Err(UnigramError::NoCachedWeights);
            },
        };
        if index >= sets.len() {
            return Err(UnigramError::WeightSetIndexOutOfRange { index, num_sets: sets.len() });
        }
        if sentence.is_empty() {
            let tokens: Vec<String> = Vec::new();
            assert(texts_of(tokens@) =~= Seq::<Seq<char>>::empty());
            return Ok(Some((tokens, Single::zero())));
        }
        let unk_id: usize = match self.unk_id {
            Some(unk_id) => unk_id,
            None => {
                return Err(UnigramError::MissingUnkId);
            },
        };
        let prepared = self.prepare_dp(sentence);
        Ok(self.segmented(sentence, &prepared, unk_id, sets, index))
    }

    /// The tokens and the score of the best segmentation by the cached set at an index.
    pub fn tokens_of_cached_weight_set(&self, sentence: &str, index: usize) -> (result: Result<
        (Vec<String>, Single),
        UnigramError,
    >)
        requires
            self.wf(),
            self@.can_segment_by(sentence@, index as int),
        ensures
            gives_tokens(result, self@.tokens_by(sentence@, index as int)),
    {
        match self.checked_tokens_of_cached_weight_set(sentence, index) {
            Ok(Some(found)) => Ok(found),
            Ok(None) => Ok((Vec::new(), Single::neg_infinity())),
            Err(error) => Err(error),
        }
    }

    /// Like `best_of_weight_sets`; nothing where the chosen set gives no segmentation.
    pub fn checked_best_of_weight_sets(&self, sentence: &str, weight_sets: &[Vec<Double>]) -> (result:
        Result<Option<(usize, Vec<String>, Double)>, UnigramError>)
        requires
            self.wf(),
        ensures
            match result {
                Ok(Some(found)) => self@.can_choose_given(sentence@, given_sets(weight_sets@))
                    && gives_given(Ok(found), self@.best_given(sentence@, given_sets(weight_sets@))),
                Ok(None) => !self@.can_choose_given(sentence@, given_sets(weight_sets@)),
                Err(error) => gives_given(
                    Err(error),
                    self@.best_given(sentence@, given_sets(weight_sets@)),
                ),
            },
    {
        let ghost given = given_sets(weight_sets@);
        if sentence.is_empty() {
            let (index, tokens, score) = empty();
            return Ok(Some((index, tokens, score.to_double())));
        }
        let expected: usize = self.vocab.len();
        match first_mismatch(weight_sets, expected) {
            Some(i) => {
                assert(given[i as int] == weight_sets@[i as int]@);
                proof {
                    lemma_first_mismatch(given, expected as nat, i as int);
                }
                return Err(
                    UnigramError::MismatchedWeightLength { expected, got: weight_sets[i].len() },
                );
            },
            None => {},
        }
        let unk_id: usize = match self.unk_id {
            Some(unk_id) => unk_id,
            None => {
                return Err(UnigramError::MissingUnkId);
            },
        };
        let prepared = self.prepare_dp(sentence);
        let sets: Vec<Vec<Single>> = narrow_sets(weight_sets);
        proof {
            assert forall|i: int| 0 <= i < sets_of(sets@).len() implies (
            #[trigger] sets_of(sets@)[i]).len() == self@.encoder.vocab.len() by {
                assert(given[i].len() == self@.encoder.vocab.len());
            }
        }
        let scores: Vec<Single> = self.scores(sentence, &prepared, unk_id, &sets);
        let (index, _) = pick(&scores);
        match self.segmented(sentence, &prepared, unk_id, &sets, index) {
            Some((tokens, score)) => Ok(Some((index, tokens, score.to_double()))),
            None => Ok(None),
        }
    }

    /// The best of sets of weights that are given with the sentence. The weights are rounded to
    /// single precision; the score is returned in double precision.
    pub fn best_of_weight_sets(&self, sentence: &str, weight_sets: &[Vec<Double>]) -> (result: Result<
        (usize, Vec<String>, Double),
        UnigramError,
    >)
        requires
            self.wf(),
            self@.can_choose_given(sentence@, given_sets(weight_sets@)),
        ensures
            gives_given(result, self@.best_given(sentence@, given_sets(weight_sets@))),
    {
        match self.checked_best_of_weight_sets(sentence, weight_sets) {
            Ok(Some(found)) => Ok(found),
            Ok(None) => Ok((0, Vec::new(), Double::zero())),
            Err(error) => Err(error),
        }
    }

    /// The cached sets with the `k` largest scores for a sentence, the largest first, each by
    /// its index with its score. The order of equal scores is left open.
    pub fn top_k_of_cached_weight_sets(&self, sentence: &str, k: usize) -> (result: Result<
        Vec<(usize, Single)>,
        UnigramError,
    >)
        requires
            self.wf(),
        ensures
            self@.gives_top(sentence@, k as int, result),
    {
        let sets: &Vec<Vec<Single>> = match &self.cached_weight_sets {
            Some(sets) => sets,
            None => {
                return Err(UnigramError::NoCachedWeights);
            },
        };
        if sentence.is_empty() || sets.len() == 0 || k == 0 {
            return Ok(Vec::new());
        }
        let unk_id: usize = match self.unk_id {
            Some(unk_id) => unk_id,
            None => {
                return Err(UnigramError::MissingUnkId);
            },
        };
        let prepared = self.prepare_dp(sentence);
        let scores: Vec<Single> = self.scores(sentence, &prepared, unk_id, sets);
        Ok(largest(&scores, k))
    }
}

/// The result for the empty sentence.
fn empty() -> (found: (usize, Vec<String>, Single))
    ensures
        outcome_of(found) == empty_outcome(),
{
    let tokens: Vec<String> = Vec::new();
    assert(texts_of(tokens@) =~= Seq::<Seq<char>>::empty());
    (0, tokens, Single::zero())
}

/// Where the first list is that does not have a length.
pub(super) fn first_mismatch<T>(lists: &[Vec<T>], length: usize) -> (place: Option<usize>)
    ensures
        match place {
            Some(i) => is_first_mismatch(
                lists@.map_values(|list: Vec<T>| list@),
                length as nat,
                i as int,
            ),
            None => all_of_length(lists@.map_values(|list: Vec<T>| list@), length as nat),
        },
{
    let ghost all = lists@.map_values(|list: Vec<T>| list@);
    let mut i: usize = 0;
    while i < lists.len()
        invariant
            i <= lists@.len(),
            all == lists@.map_values(|list: Vec<T>| list@),
            forall|j: int| 0 <= j < i ==> (#[trigger] all[j]).len() == length,
        decreases lists.len() - i,
    {
        assert(all[i as int] == lists@[i as int]@);
        if lists[i].len() != length {
            return Some(i);
        }
        i = i + 1;
    }
    None
}

/// Sets of weights in single precision.
pub(super) fn narrow_sets(given: &[Vec<Double>]) -> (sets: Vec<Vec<Single>>)
    ensures
        sets_of(sets@) == narrowed_sets(given_sets(given@)),
{
    let mut sets: Vec<Vec<Single>> = Vec::new();
    let mut i: usize = 0;
    while i < given.len()
        invariant
            i <= given@.len(),
            sets_of(sets@) =~= narrowed_sets(given_sets(given@)).take(i as int),
        decreases given.len() - i,
    {
        let ghost before = sets@;
        sets.push(narrow(&given[i]));
        assert(sets_of(sets@) =~= sets_of(before).push(narrowed_weights(given@[i as int]@)));
        i = i + 1;
    }
    assert(sets_of(sets@) =~= narrowed_sets(given_sets(given@)));
    sets
}

/// A set of weights in single precision.
fn narrow(given: &Vec<Double>) -> (weights: Vec<Single>)
    ensures
        weights@ == narrowed_weights(given@),
{
    let mut weights: Vec<Single> = Vec::new();
    let mut i: usize = 0;
    while i < given.len()
        invariant
            i <= given@.len(),
            weights@ =~= narrowed_weights(given@).take(i as int),
        decreases given.len() - i,
    {
        weights.push(given[i].to_single());
        i = i + 1;
    }
    assert(weights@ =~= narrowed_weights(given@));
    weights
}

/// The result that is known to be there.
fn settle(checked: Result<Option<(usize, Vec<String>, Single)>, UnigramError>) -> (result: Result<
    (usize, Vec<String>, Single),
    UnigramError,
>)
    requires
        checked is Ok ==> checked->Ok_0 is Some,
    ensures
        match checked {
            Ok(found) => result == Ok::<(usize, Vec<String>, Single), UnigramError>(found->0),
            Err(error) => result == Err::<(usize, Vec<String>, Single), UnigramError>(error),
        },
{
    match checked {
        Ok(Some(found)) => Ok(found),
        Ok(None) => Ok(empty()),
        Err(error) => Err(error),
    }
}

} // verus!
