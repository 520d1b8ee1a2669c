//! Choosing among sets of weights: which set scores a sentence best, and its segmentation.

use crate::cache::texts_of;
use crate::double::{widened, Double};
use crate::encoding::Encoder;
use crate::error::UnigramError;
use crate::optimality::lemma_best_is_number;
use crate::prepared_dp::{best, best_pieces, forward, lemma_best_count, Weighting};
use crate::scan::Edges;
use crate::segmentation::tokens_of;
use crate::ranking::{is_top, law_winner_is_first_of_largest, ranking, winner, Winner};
use crate::sentence::lemma_empty_text;
use crate::single::{
    lemma_exceeds_order, lemma_neg_infinity_least, lemma_over_one, Single, SINGLE_NEG_INFINITY,
    SINGLE_ONE,
};
use crate::vocabulary::graph;
use vstd::prelude::*;
use vstd::utf8::encode_utf8;

verus! {

/// The state of a model, without its cache.
pub struct ModelView {
    pub encoder: Encoder,
    pub byte_fallback: bool,
    pub weight_sets: Option<Seq<Seq<Single>>>,
}

/// A chosen set of weights, the tokens of its best segmentation of a sentence, and a score.
pub struct Outcome {
    pub index: int,
    pub tokens: Seq<Seq<char>>,
    pub score: Single,
}

impl ModelView {
    /// The graph of a sentence.
    pub open spec fn graph(self, sentence: Seq<char>) -> Edges {
        graph(self.encoder.vocab, self.encoder.unk_id, encode_utf8(sentence))
    }

    /// The scores of edges by a set of weights.
    pub open spec fn weighting(self, weights: Seq<Single>) -> Weighting {
        Weighting {
            weights,
            unk_id: self.encoder.unk_id->0,
            unk_score: self.encoder.unk_score().narrowed(),
        }
    }

    /// The scores of the vocabulary, as a set of weights.
    pub open spec fn own_weights(self) -> Seq<Single> {
        self.encoder.vocab.map_values(|entry: (Seq<char>, Double)| entry.1.narrowed())
    }

    /// The set of weights at an index; without any sets, the model's own scores.
    pub open spec fn chosen(self, sets: Seq<Seq<Single>>, index: int) -> Seq<Single> {
        if sets.len() == 0 {
            self.own_weights()
        } else {
            sets[index]
        }
    }

    /// The score of the best segmentation of a sentence.
    pub open spec fn best_score(self, sentence: Seq<char>, weights: Seq<Single>) -> Single {
        best(
            self.graph(sentence),
            self.weighting(weights),
            encode_utf8(sentence).len() as int,
        ).score
    }

    /// How many edges the best segmentation of a sentence has.
    pub open spec fn best_count(self, sentence: Seq<char>, weights: Seq<Single>) -> nat {
        best(
            self.graph(sentence),
            self.weighting(weights),
            encode_utf8(sentence).len() as int,
        ).count
    }

    /// The weights give the sentence a segmentation with a score above negative infinity.
    pub open spec fn segmentable(self, sentence: Seq<char>, weights: Seq<Single>) -> bool {
        self.best_score(sentence, weights).bits != SINGLE_NEG_INFINITY
    }

    /// The tokens of the best segmentation of a sentence.
    pub open spec fn best_tokens(self, sentence: Seq<char>, weights: Seq<Single>) -> Seq<
        Seq<char>,
    > {
        tokens_of(
            sentence,
            best_pieces(
                self.graph(sentence),
                self.weighting(weights),
                encode_utf8(sentence).len() as int,
            ),
            self.encoder.fuse(),
        )
    }

    /// The best scores of a sentence, by each set.
    pub open spec fn plain_scores(self, sentence: Seq<char>, sets: Seq<Seq<Single>>) -> Seq<
        Single,
    > {
        sets.map_values(|weights: Seq<Single>| self.best_score(sentence, weights))
    }

    /// The best scores of a sentence, each with a bias added; a missing bias is zero.
    pub open spec fn biased_scores(
        self,
        sentence: Seq<char>,
        sets: Seq<Seq<Single>>,
        biases: Seq<Single>,
    ) -> Seq<Single> {
        sets.map(
            |i: int, weights: Seq<Single>|
                self.best_score(sentence, weights).plus(
                    if i < biases.len() {
                        biases[i]
                    } else {
                        Single { bits: 0 }
                    },
                ),
        )
    }

    /// The best scores of a sentence, each divided by a power of the number of edges.
    pub open spec fn normalized_scores(
        self,
        sentence: Seq<char>,
        sets: Seq<Seq<Single>>,
        powf: spec_fn(Single, Single) -> Single,
        alpha: Single,
    ) -> Seq<Single> {
        sets.map_values(
            |weights: Seq<Single>|
                {
                    let count = self.best_count(sentence, weights);
                    if count > 0 {
                        self.best_score(sentence, weights).over(
                            powf(Single::of_natural(count), alpha),
                        )
                    } else {
                        Single { bits: SINGLE_NEG_INFINITY }
                    }
                },
        )
    }

    /// The forward scores of a sentence, by each set.
    pub open spec fn forward_scores(
        self,
        sentence: Seq<char>,
        sets: Seq<Seq<Single>>,
        log_1p_exp: spec_fn(Single) -> Single,
    ) -> Seq<Single> {
        sets.map_values(
            |weights: Seq<Single>|
                forward(
                    log_1p_exp,
                    self.graph(sentence),
                    self.weighting(weights),
                    encode_utf8(sentence).len() as int,
                ),
        )
    }

    /// What a winner stands for. The score is that of the segmentation.
    pub open spec fn outcome(self, sentence: Seq<char>, sets: Seq<Seq<Single>>, index: int) -> Outcome {
        let weights = self.chosen(sets, index);
        Outcome {
            index,
            tokens: self.best_tokens(sentence, weights),
            score: self.best_score(sentence, weights),
        }
    }

    /// What a winner stands for. The score is the one by which it won.
    pub open spec fn outcome_with(
        self,
        sentence: Seq<char>,
        sets: Seq<Seq<Single>>,
        w: Winner,
    ) -> Outcome {
        Outcome {
            index: w.index,
            tokens: self.best_tokens(sentence, self.chosen(sets, w.index)),
            score: w.score,
        }
    }

    /// What is returned where the sentence need not be looked at: an error, or, for the empty
    /// sentence, no tokens.
    pub open spec fn early(self, sentence: Seq<char>) -> Option<Result<Outcome, UnigramError>> {
        if self.weight_sets is None {
            Some(Err(UnigramError::NoCachedWeights))
        } else if sentence.len() == 0 {
            Some(Ok(empty_outcome()))
        } else if self.encoder.unk_id is None {
            Some(Err(UnigramError::MissingUnkId))
        } else {
            None
        }
    }

    /// The chosen set gives the sentence a segmentation, where one is asked for.
    pub open spec fn can_choose(self, sentence: Seq<char>, index: int) -> bool {
        self.early(sentence) is None ==> self.segmentable(
            sentence,
            self.chosen(self.weight_sets->0, index),
        )
    }

    /// A set has been chosen, and the tokens are those of its best segmentation.
    pub open spec fn is_choice(self, sentence: Seq<char>, found: Outcome) -> bool {
        let sets = self.weight_sets->0;
        let weights = self.chosen(sets, found.index);
        &&& if sets.len() == 0 {
            found.index == 0
        } else {
            0 <= found.index < sets.len()
        }
        &&& self.segmentable(sentence, weights)
        &&& found.tokens == self.best_tokens(sentence, weights)
    }

    /// What holds of a result however the set was chosen; nothing is returned only where the
    /// sentence had to be looked at.
    pub open spec fn gives_choice(
        self,
        sentence: Seq<char>,
        result: Result<Option<(usize, Vec<String>, Single)>, UnigramError>,
    ) -> bool {
        match self.early(sentence) {
            Some(expected) => gives_checked(result, expected, true),
            None => match result {
                Ok(Some(found)) => self.is_choice(sentence, outcome_of(found)),
                Ok(None) => true,
                Err(_) => false,
            },
        }
    }

    /// Where the best of the cached sets is.
    pub open spec fn plain_index(self, sentence: Seq<char>) -> int {
        winner(self.plain_scores(sentence, self.weight_sets->0)).index
    }

    /// Where the best of the cached sets by biased scores is.
    pub open spec fn biased_index(self, sentence: Seq<char>, biases: Seq<Single>) -> int {
        winner(self.biased_scores(sentence, self.weight_sets->0, biases)).index
    }

    /// The best of the cached sets by normalized scores.
    pub open spec fn normalized_winner(
        self,
        sentence: Seq<char>,
        powf: spec_fn(Single, Single) -> Single,
        alpha: Single,
    ) -> Winner {
        winner(self.normalized_scores(sentence, self.weight_sets->0, powf, alpha))
    }

    /// The best of the cached sets by forward scores.
    pub open spec fn forward_winner(
        self,
        sentence: Seq<char>,
        log_1p_exp: spec_fn(Single) -> Single,
    ) -> Winner {
        winner(self.forward_scores(sentence, self.weight_sets->0, log_1p_exp))
    }

    /// The best of the cached sets.
    pub open spec fn best_plain(self, sentence: Seq<char>) -> Result<Outcome, UnigramError> {
        match self.early(sentence) {
            Some(result) => result,
            None => Ok(self.outcome(sentence, self.weight_sets->0, self.plain_index(sentence))),
        }
    }

    /// The best of the cached sets, by biased scores.
    pub open spec fn best_biased(self, sentence: Seq<char>, biases: Seq<Single>) -> Result<
        Outcome,
        UnigramError,
    > {
        match self.early(sentence) {
            Some(result) => result,
            None => Ok(
                self.outcome(sentence, self.weight_sets->0, self.biased_index(sentence, biases)),
            ),
        }
    }

    /// The best of the cached sets, by normalized scores.
    pub open spec fn best_normalized(
        self,
        sentence: Seq<char>,
        powf: spec_fn(Single, Single) -> Single,
        alpha: Single,
    ) -> Result<Outcome, UnigramError> {
        match self.early(sentence) {
            Some(result) => result,
            None => Ok(
                self.outcome_with(
                    sentence,
                    self.weight_sets->0,
                    self.normalized_winner(sentence, powf, alpha),
                ),
            ),
        }
    }

    /// The best of the cached sets, by forward scores.
    pub open spec fn best_forward(
        self,
        sentence: Seq<char>,
        log_1p_exp: spec_fn(Single) -> Single,
    ) -> Result<Outcome, UnigramError> {
        match self.early(sentence) {
            Some(result) => result,
            None => Ok(
                self.outcome_with(
                    sentence,
                    self.weight_sets->0,
                    self.forward_winner(sentence, log_1p_exp),
                ),
            ),
        }
    }

    /// The segmentation by one of the cached sets.
    pub open spec fn tokens_by(self, sentence: Seq<char>, index: int) -> Result<
        (Seq<Seq<char>>, Single),
        UnigramError,
    > {
        let sets = self.weight_sets->0;
        if self.weight_sets is None {
            Err(UnigramError::NoCachedWeights)
        } else if index >= sets.len() {
            Err(
                UnigramError::WeightSetIndexOutOfRange {
                    index: index as usize,
                    num_sets: sets.len() as usize,
                },
            )
        } else if sentence.len() == 0 {
            Ok((seq![], Single { bits: 0 }))
        } else if self.encoder.unk_id is None {
            Err(UnigramError::MissingUnkId)
        } else {
            Ok((self.best_tokens(sentence, sets[index]), self.best_score(sentence, sets[index])))
        }
    }

    /// The result lists the sets with the `k` largest scores.
    pub open spec fn gives_top(
        self,
        sentence: Seq<char>,
        k: int,
        result: Result<Vec<(usize, Single)>, UnigramError>,
    ) -> bool {
        let sets = self.weight_sets->0;
        if self.weight_sets is None {
            result == Err::<Vec<(usize, Single)>, UnigramError>(UnigramError::NoCachedWeights)
        } else if sentence.len() == 0 || sets.len() == 0 || k == 0 {
            result is Ok && result->Ok_0@.len() == 0
        } else if self.encoder.unk_id is None {
            result == Err::<Vec<(usize, Single)>, UnigramError>(UnigramError::MissingUnkId)
        } else {
            result is Ok && is_top(self.plain_scores(sentence, sets), k, ranking(result->Ok_0@))
        }
    }

    /// The set at an index gives the sentence a segmentation, where one is asked for.
    pub open spec fn can_segment_by(self, sentence: Seq<char>, index: int) -> bool {
        let sets = self.weight_sets->0;
        self.early(sentence) is None && index < sets.len() ==> self.segmentable(
            sentence,
            sets[index],
        )
    }

    /// The chosen one of sets that are given with the sentence gives it a segmentation, where
    /// one is asked for.
    pub open spec fn can_choose_given(self, sentence: Seq<char>, given: Seq<Seq<Double>>) -> bool {
        let sets = narrowed_sets(given);
        sentence.len() > 0 && all_of_length(given, self.encoder.vocab.len())
            && self.encoder.unk_id is Some ==> self.segmentable(
            sentence,
            self.chosen(sets, winner(self.plain_scores(sentence, sets)).index),
        )
    }

    /// The best of sets that are given with the sentence.
    pub open spec fn best_given(self, sentence: Seq<char>, given: Seq<Seq<Double>>) -> Result<
        Outcome,
        UnigramError,
    > {
        let sets = narrowed_sets(given);
        if sentence.len() == 0 {
            Ok(empty_outcome())
        } else if !all_of_length(given, self.encoder.vocab.len()) {
            Err(
                UnigramError::MismatchedWeightLength {
                    expected: self.encoder.vocab.len() as usize,
                    got: mismatched_length(given, self.encoder.vocab.len()) as usize,
                },
            )
        } else if self.encoder.unk_id is None {
            Err(UnigramError::MissingUnkId)
        } else {
            Ok(self.outcome(sentence, sets, winner(self.plain_scores(sentence, sets)).index))
        }
    }

    /// The sets of weights have a weight for each token.
    pub open spec fn wf(self) -> bool {
        &&& self.encoder.wf()
        &&& self.weight_sets is Some ==> all_of_length(
            self.weight_sets->0,
            self.encoder.vocab.len(),
        )
    }
}

/// A result as an outcome.
pub open spec fn outcome_of(found: (usize, Vec<String>, Single)) -> Outcome {
    Outcome { index: found.0 as int, tokens: texts_of(found.1@), score: found.2 }
}

/// The result is the one expected.
pub open spec fn gives_outcome(
    result: Result<(usize, Vec<String>, Single), UnigramError>,
    expected: Result<Outcome, UnigramError>,
) -> bool {
    match result {
        Ok(found) => expected == Ok::<Outcome, UnigramError>(outcome_of(found)),
        Err(error) => expected == Err::<Outcome, UnigramError>(error),
    }
}

/// The result is the one expected; nothing where that is not possible.
pub open spec fn gives_checked(
    result: Result<Option<(usize, Vec<String>, Single)>, UnigramError>,
    expected: Result<Outcome, UnigramError>,
    possible: bool,
) -> bool {
    match result {
        Ok(Some(found)) => possible && expected == Ok::<Outcome, UnigramError>(outcome_of(found)),
        Ok(None) => !possible,
        Err(error) => expected == Err::<Outcome, UnigramError>(error),
    }
}

/// Each set of weights, as a sequence.
pub open spec fn given_sets(sets: Seq<Vec<Double>>) -> Seq<Seq<Double>> {
    sets.map_values(|weights: Vec<Double>| weights@)
}

/// The result is the one expected, with its score in double precision.
pub open spec fn gives_given(
    result: Result<(usize, Vec<String>, Double), UnigramError>,
    expected: Result<Outcome, UnigramError>,
) -> bool {
    match result {
        Ok(found) => match expected {
            Ok(outcome) => {
                &&& found.0 == outcome.index
                &&& texts_of(found.1@) == outcome.tokens
                &&& found.2 == widened(outcome.score)
            },
            Err(_) => false,
        },
        Err(error) => expected == Err::<Outcome, UnigramError>(error),
    }
}

/// The result is the one expected.
pub open spec fn gives_tokens(
    result: Result<(Vec<String>, Single), UnigramError>,
    expected: Result<(Seq<Seq<char>>, Single), UnigramError>,
) -> bool {
    match result {
        Ok(found) => expected == Ok::<(Seq<Seq<char>>, Single), UnigramError>(
            (texts_of(found.0@), found.1),
        ),
        Err(error) => expected == Err::<(Seq<Seq<char>>, Single), UnigramError>(error),
    }
}

/// The closure computes the function of two arguments.
pub open spec fn computes_power<P: Fn(Single, Single) -> Single>(
    closure: P,
    function: spec_fn(Single, Single) -> Single,
) -> bool {
    forall|x: Single, y: Single, z: Single| #[trigger]
        call_ensures(closure, (x, y), z) ==> z == function(x, y)
}

/// No tokens, and a score of zero.
pub open spec fn empty_outcome() -> Outcome {
    Outcome { index: 0, tokens: seq![], score: Single { bits: 0 } }
}

/// Every set has the given length.
pub open spec fn all_of_length<T>(sets: Seq<Seq<T>>, length: nat) -> bool {
    forall|i: int| 0 <= i < sets.len() ==> (#[trigger] sets[i]).len() == length
}

/// Set `i` is the first that does not have the given length.
pub open spec fn is_first_mismatch<T>(sets: Seq<Seq<T>>, length: nat, i: int) -> bool {
    &&& 0 <= i < sets.len()
    &&& sets[i].len() != length
    &&& forall|j: int| 0 <= j < i ==> (#[trigger] sets[j]).len() == length
}

/// The length of the first set that does not have the given length.
pub open spec fn mismatched_length<T>(sets: Seq<Seq<T>>, length: nat) -> nat {
    let i = choose|i: int| is_first_mismatch(sets, length, i);
    sets[i].len()
}

/// There is only one first set that does not have a length.
pub proof fn lemma_first_mismatch<T>(sets: Seq<Seq<T>>, length: nat, i: int)
    requires
        is_first_mismatch(sets, length, i),
    ensures
        !all_of_length(sets, length),
        mismatched_length(sets, length) == sets[i].len(),
{
    let k = choose|k: int| is_first_mismatch(sets, length, k);
    assert(is_first_mismatch(sets, length, k));
    if i < k {
        assert(sets[i].len() == length);
    }
    if k < i {
        assert(sets[k].len() == length);
    }
}

/// Sets of weights in single precision.
pub open spec fn narrowed_sets(sets: Seq<Seq<Double>>) -> Seq<Seq<Single>> {
    sets.map_values(|weights: Seq<Double>| narrowed_weights(weights))
}

pub open spec fn narrowed_weights(weights: Seq<Double>) -> Seq<Single> {
    weights.map_values(|weight: Double| weight.narrowed())
}

/// A sentence's best set and the segmentation by that set's index agree: asking for the
/// winner's tokens gives the winner's tokens and score.
pub proof fn law_winner_agrees_with_its_index(m: ModelView, sentence: Seq<char>)
    requires
        m.weight_sets is Some,
        m.weight_sets->0.len() > 0,
    ensures
        match m.best_plain(sentence) {
            Ok(found) => m.tokens_by(sentence, found.index) == Ok::<
                (Seq<Seq<char>>, Single),
                UnigramError,
            >((found.tokens, found.score)),
            Err(error) => m.tokens_by(sentence, 0) == Err::<(Seq<Seq<char>>, Single), UnigramError>(
                error,
            ),
        },
{
    law_winner_is_first_of_largest(m.plain_scores(sentence, m.weight_sets->0));
}

/// Without sets of weights, no sentence is judged, not even the empty one; with an empty list of
/// sets, the empty sentence has no tokens.
pub proof fn law_cleared_sets_judge_nothing(
    m: ModelView,
    sentence: Seq<char>,
    biases: Seq<Single>,
    powf: spec_fn(Single, Single) -> Single,
    alpha: Single,
    log_1p_exp: spec_fn(Single) -> Single,
    index: int,
    k: int,
    top: Result<Vec<(usize, Single)>, UnigramError>,
)
    ensures
        m.weight_sets is None ==> {
            let none = Err::<Outcome, UnigramError>(UnigramError::NoCachedWeights);
            &&& m.best_plain(sentence) == none
            &&& m.best_biased(sentence, biases) == none
            &&& m.best_normalized(sentence, powf, alpha) == none
            &&& m.best_forward(sentence, log_1p_exp) == none
            &&& m.tokens_by(sentence, index) == Err::<(Seq<Seq<char>>, Single), UnigramError>(
                UnigramError::NoCachedWeights,
            )
            &&& m.gives_top(sentence, k, top) <==> top == Err::<
                Vec<(usize, Single)>,
                UnigramError,
            >(UnigramError::NoCachedWeights)
        },
        m.weight_sets is Some && sentence.len() == 0 ==> {
            let empty = Ok::<Outcome, UnigramError>(empty_outcome());
            &&& m.best_plain(sentence) == empty
            &&& m.best_biased(sentence, biases) == empty
            &&& m.best_normalized(sentence, powf, alpha) == empty
            &&& m.best_forward(sentence, log_1p_exp) == empty
        },
{
}

/// With a power that is always one, as with an exponent of zero, the normalized choice is the
/// plain choice.
pub proof fn law_power_of_one_is_plain(
    m: ModelView,
    sentence: Seq<char>,
    powf: spec_fn(Single, Single) -> Single,
    alpha: Single,
)
    requires
        m.weight_sets is Some,
        m.weight_sets->0.len() > 0,
        forall|n: nat|
            n > 0 ==> powf(#[trigger] Single::of_natural(n), alpha) == (Single {
                bits: SINGLE_ONE,
            }),
    ensures
        m.best_normalized(sentence, powf, alpha) == m.best_plain(sentence),
{
    if m.early(sentence) is None {
        let sets = m.weight_sets->0;
        let plain = m.plain_scores(sentence, sets);
        let normalized = m.normalized_scores(sentence, sets, powf, alpha);
        let end = encode_utf8(sentence).len() as int;
        lemma_empty_text(sentence);
        assert forall|i: int| 0 <= i < sets.len() implies plain[i] == normalized[i] && !plain[i].nan() by {
            let g = m.graph(sentence);
            let w = m.weighting(sets[i]);
            lemma_best_is_number(g, w, end);
            lemma_best_count(g, w, end, end, 0);
            lemma_over_one(plain[i]);
            let n = m.best_count(sentence, sets[i]);
            if n > 0 {
                assert(powf(Single::of_natural(n), alpha) == (Single { bits: SINGLE_ONE }));
            }
        }
        assert(plain =~= normalized);
        law_winner_is_first_of_largest(plain);
        let best = winner(plain);
        if best.score.bits == SINGLE_NEG_INFINITY {
            assert(!plain[0].exceeds(best.score));
            lemma_neg_infinity_least(plain[0]);
            lemma_exceeds_order(plain[0], best.score);
        }
        assert(plain[best.index] == best.score);
    }
}

/// Without biases, the biased choice is the plain choice.
pub proof fn law_no_bias_is_plain(m: ModelView, sentence: Seq<char>)
    ensures
        m.best_biased(sentence, seq![]) == m.best_plain(sentence),
{
    let sets = m.weight_sets->0;
    let plain = m.plain_scores(sentence, sets);
    let biased = m.biased_scores(sentence, sets, seq![]);
    assert forall|i: int| 0 <= i < sets.len() implies plain[i] == biased[i] by {
        crate::prepared_dp::lemma_best_plus_zero(
            m.graph(sentence),
            m.weighting(sets[i]),
            encode_utf8(sentence).len() as int,
        );
    }
    assert(plain =~= biased);
}

} // verus!
