//! What the results of choosing among sets of weights are, in terms of the sets and of the scores
//! that each of them gives the sentence.

use crate::cache::texts_of;
use crate::double::{widened, Double};
use crate::error::UnigramError;
use crate::model::batch::gives_each;
use crate::model::settings::is_length_mismatch;
use crate::optimality::{law_best_is_attained, lemma_best_is_number};
use crate::prepared_dp::{
    best_init, best_pieces, best_step, forward, lemma_best_count, Weighting,
};
use crate::ranking::{is_listed, is_top, law_winner_is_first_of_largest, ranking, winner};
use crate::scan::{scan, Edges};
use crate::sentence::lemma_empty_text;
use crate::single::{
    lemma_exceeds_is_above, lemma_exceeds_order, lemma_neg_infinity_least, Single,
    SINGLE_NEG_INFINITY,
};
use crate::weight_sets::{
    all_of_length, given_sets, gives_checked, gives_given, gives_outcome, gives_tokens,
    is_first_mismatch, lemma_first_mismatch, narrowed_sets, ModelView, Outcome,
};
use vstd::prelude::*;
use vstd::utf8::encode_utf8;

verus! {

/// Place `i` has the largest of `n` scores, and is the first that has it. Where no score is above
/// negative infinity, it is the first place.
pub open spec fn wins(score: spec_fn(int) -> Single, n: int, i: int) -> bool {
    let least = Single { bits: SINGLE_NEG_INFINITY };
    &&& 0 <= i < n
    &&& if forall|j: int| 0 <= j < n ==> !(#[trigger] score(j)).exceeds(least) {
        i == 0
    } else {
        &&& score(i).exceeds(least)
        &&& forall|j: int| 0 <= j < n ==> !(#[trigger] score(j)).exceeds(score(i))
        &&& forall|j: int|
            0 <= j < i ==> (#[trigger] score(j)).nan() || score(i).exceeds(score(j))
    }
}

/// The winner of a list of scores wins.
proof fn lemma_winner_wins(scores: Seq<Single>, score: spec_fn(int) -> Single)
    requires
        scores.len() > 0,
        forall|j: int| 0 <= j < scores.len() ==> (#[trigger] scores[j]) == score(j),
    ensures
        wins(score, scores.len() as int, winner(scores).index),
        (forall|j: int|
            0 <= j < scores.len() ==> !(#[trigger] score(j)).exceeds(
                Single { bits: SINGLE_NEG_INFINITY },
            )) ==> winner(scores).score.bits == SINGLE_NEG_INFINITY,
        !(forall|j: int|
            0 <= j < scores.len() ==> !(#[trigger] score(j)).exceeds(
                Single { bits: SINGLE_NEG_INFINITY },
            )) ==> winner(scores).score == score(winner(scores).index),
{
    law_winner_is_first_of_largest(scores);
    let w = winner(scores);
    let least = Single { bits: SINGLE_NEG_INFINITY };
    if w.score.bits == SINGLE_NEG_INFINITY {
        assert forall|j: int| 0 <= j < scores.len() implies !(#[trigger] score(j)).exceeds(least) by {
            assert(!scores[j].exceeds(w.score));
        }
    } else {
        lemma_neg_infinity_least(w.score);
        lemma_neg_infinity_is_number();
        lemma_exceeds_order(w.score, least);
        assert(scores[w.index] == score(w.index));
        assert(score(w.index).exceeds(least));
        assert forall|j: int| 0 <= j < scores.len() implies !(#[trigger] score(j)).exceeds(
            score(w.index),
        ) by {
            assert(!scores[j].exceeds(w.score));
        }
        assert forall|j: int| 0 <= j < w.index implies (#[trigger] score(j)).nan() || score(
            w.index,
        ).exceeds(score(j)) by {
            assert(scores[j].nan() || w.score.exceeds(scores[j]));
        }
    }
}

proof fn lemma_neg_infinity_is_number()
    ensures
        !(Single { bits: SINGLE_NEG_INFINITY }).nan(),
{
}

/// The weight that a set gives an id, and the score of unknown characters, which is also that of
/// the unknown token.
pub proof fn law_weighting(m: ModelView, weights: Seq<Single>, id: usize)
    requires
        m.encoder.unk_id is Some,
    ensures
        m.weighting(weights).weight(id) == (if m.encoder.unk_id == Some(id) {
            m.encoder.min_score.plus(Double { bits: 0xc024_0000_0000_0000 }).narrowed()
        } else {
            weights[id as int]
        }),
{
}

/// Before a sentence is looked at: without sets of weights every choice fails; the empty sentence
/// has no tokens, and a score of zero; without an id for unknown characters every choice among
/// sets for another sentence fails. Otherwise none of these is so.
pub proof fn law_choices_before_looking(
    m: ModelView,
    sentence: Seq<char>,
    result: Result<Option<(usize, Vec<String>, Single)>, UnigramError>,
    biases: Seq<Single>,
    powf: spec_fn(Single, Single) -> Single,
    alpha: Single,
    log_1p_exp: spec_fn(Single) -> Single,
)
    requires
        ({
            ||| gives_checked(
                result,
                m.best_plain(sentence),
                m.can_choose(sentence, m.plain_index(sentence)),
            )
            ||| gives_checked(
                result,
                m.best_biased(sentence, biases),
                m.can_choose(sentence, m.biased_index(sentence, biases)),
            )
            ||| gives_checked(
                result,
                m.best_normalized(sentence, powf, alpha),
                m.can_choose(sentence, m.normalized_winner(sentence, powf, alpha).index),
            )
            ||| gives_checked(
                result,
                m.best_forward(sentence, log_1p_exp),
                m.can_choose(sentence, m.forward_winner(sentence, log_1p_exp).index),
            )
            ||| m.gives_choice(sentence, result)
        }),
    ensures
        m.weight_sets is None ==> result == Err::<
            Option<(usize, Vec<String>, Single)>,
            UnigramError,
        >(UnigramError::NoCachedWeights),
        m.weight_sets is Some && sentence.len() == 0 ==> match result {
            Ok(Some((index, tokens, score))) => index == 0 && tokens@.len() == 0 && score.bits == 0,
            _ => false,
        },
        m.weight_sets is Some && sentence.len() > 0 && m.encoder.unk_id is None ==> result == Err::<
            Option<(usize, Vec<String>, Single)>,
            UnigramError,
        >(UnigramError::MissingUnkId),
        m.weight_sets is Some && sentence.len() > 0 && m.encoder.unk_id is Some ==> result is Ok,
{
    match result {
        Ok(Some((index, tokens, score))) => {
            assert(texts_of(tokens@).len() == tokens@.len());
        },
        _ => {},
    }
}

/// The sentence is looked at, and there are sets to choose from.
pub open spec fn is_open_choice(m: ModelView, sentence: Seq<char>) -> bool {
    &&& m.weight_sets is Some
    &&& m.weight_sets->0.len() > 0
    &&& sentence.len() > 0
    &&& m.encoder.unk_id is Some
}

/// The plain choice: the first set that gives the sentence the largest score, with its tokens and
/// that score; nothing where that set gives no segmentation.
pub proof fn law_plain_choice(
    m: ModelView,
    sentence: Seq<char>,
    result: Result<Option<(usize, Vec<String>, Single)>, UnigramError>,
)
    requires
        is_open_choice(m, sentence),
        gives_checked(
            result,
            m.best_plain(sentence),
            m.can_choose(sentence, m.plain_index(sentence)),
        ),
    ensures
        ({
            let sets = m.weight_sets->0;
            let score = |j: int| m.best_score(sentence, sets[j]);
            match result {
                Ok(Some((index, tokens, found))) => {
                    &&& wins(score, sets.len() as int, index as int)
                    &&& found == m.best_score(sentence, sets[index as int])
                    &&& found.bits != SINGLE_NEG_INFINITY
                    &&& tokens@.map_values(|token: String| token@) == m.best_tokens(
                        sentence,
                        sets[index as int],
                    )
                },
                Ok(None) => forall|j: int|
                    0 <= j < sets.len() ==> m.best_score(sentence, #[trigger] sets[j]).bits
                        == SINGLE_NEG_INFINITY,
                Err(_) => false,
            }
        }),
{
    let sets = m.weight_sets->0;
    let score = |j: int| m.best_score(sentence, sets[j]);
    let scores = m.plain_scores(sentence, sets);
    lemma_winner_wins(scores, score);
    assert forall|j: int| 0 <= j < sets.len() implies !(#[trigger] score(j)).nan() && score(j)
        == m.best_score(sentence, sets[j]) by {
        lemma_best_is_number(
            m.graph(sentence),
            m.weighting(sets[j]),
            encode_utf8(sentence).len() as int,
        );
    }
    match result {
        Ok(Some((index, tokens, found))) => {
            assert(tokens@.map_values(|token: String| token@) =~= texts_of(tokens@));
        },
        Ok(None) => {
            let i = winner(scores).index;
            let least = Single { bits: SINGLE_NEG_INFINITY };
            assert(score(i).bits == SINGLE_NEG_INFINITY);
            assert forall|j: int| 0 <= j < sets.len() implies m.best_score(
                sentence,
                #[trigger] sets[j],
            ).bits == SINGLE_NEG_INFINITY by {
                assert(!score(j).nan());
                if score(i).exceeds(least) {
                    lemma_exceeds_is_above(score(i), least);
                }
                assert(!score(j).exceeds(least));
                lemma_neg_infinity_least(score(j));
                lemma_exceeds_order(score(j), least);
            }
        },
        Err(_) => {},
    }
}

/// The biased choice: the first set whose score, with its bias added once, is the largest; a bias
/// that is missing is zero. The score returned is without the bias.
pub proof fn law_biased_choice(
    m: ModelView,
    sentence: Seq<char>,
    biases: Seq<Single>,
    result: Result<Option<(usize, Vec<String>, Single)>, UnigramError>,
)
    requires
        is_open_choice(m, sentence),
        gives_checked(
            result,
            m.best_biased(sentence, biases),
            m.can_choose(sentence, m.biased_index(sentence, biases)),
        ),
    ensures
        ({
            let sets = m.weight_sets->0;
            let score = |j: int|
                m.best_score(sentence, sets[j]).plus(
                    if j < biases.len() {
                        biases[j]
                    } else {
                        Single { bits: 0 }
                    },
                );
            match result {
                Ok(Some((index, tokens, found))) => {
                    &&& wins(score, sets.len() as int, index as int)
                    &&& found == m.best_score(sentence, sets[index as int])
                    &&& found.bits != SINGLE_NEG_INFINITY
                    &&& tokens@.map_values(|token: String| token@) == m.best_tokens(
                        sentence,
                        sets[index as int],
                    )
                },
                Ok(None) => exists|i: int| #[trigger]
                    wins(score, sets.len() as int, i) && m.best_score(sentence, sets[i]).bits
                        == SINGLE_NEG_INFINITY,
                Err(_) => false,
            }
        }),
{
    let sets = m.weight_sets->0;
    let score = |j: int|
        m.best_score(sentence, sets[j]).plus(
            if j < biases.len() {
                biases[j]
            } else {
                Single { bits: 0 }
            },
        );
    let scores = m.biased_scores(sentence, sets, biases);
    lemma_winner_wins(scores, score);
    match result {
        Ok(Some((index, tokens, found))) => {
            assert(tokens@.map_values(|token: String| token@) =~= texts_of(tokens@));
        },
        _ => {
            assert(wins(score, sets.len() as int, winner(scores).index));
        },
    }
}

/// A place that is not reached has no edges counted.
proof fn lemma_unreached_count(edges: Edges, w: Weighting, end: int, start: int, taken: int)
    requires
        0 < end,
        0 <= start,
        0 <= taken,
    ensures
        ({
            let known = scan(edges, best_init(), best_step(w), end, start, taken);
            known.score.bits == SINGLE_NEG_INFINITY ==> known.count == 0
        }),
    decreases start, taken,
{
    if taken > 0 {
        lemma_unreached_count(edges, w, end, start, taken - 1);
        let before = scan(edges, best_init(), best_step(w), end, start, taken - 1);
        let known = scan(edges, best_init(), best_step(w), end, start, taken);
        if known != before {
            lemma_exceeds_is_above(known.score, before.score);
        }
    } else if start > 0 {
        lemma_unreached_count(edges, w, end, start - 1, edges[start - 1].len() as int);
    }
}

/// The normalized choice: the first set whose score, divided by the given power of the number of
/// pieces of its best segmentation before unknown pieces are fused, is the largest. The score
/// returned is that quotient. A set without a segmentation scores negative infinity.
pub proof fn law_normalized_choice(
    m: ModelView,
    sentence: Seq<char>,
    powf: spec_fn(Single, Single) -> Single,
    alpha: Single,
    result: Result<Option<(usize, Vec<String>, Single)>, UnigramError>,
)
    requires
        is_open_choice(m, sentence),
        encode_utf8(sentence).len() < usize::MAX,
        gives_checked(
            result,
            m.best_normalized(sentence, powf, alpha),
            m.can_choose(sentence, m.normalized_winner(sentence, powf, alpha).index),
        ),
    ensures
        ({
            let sets = m.weight_sets->0;
            let end = encode_utf8(sentence).len() as int;
            let score = |j: int|
                if m.best_score(sentence, sets[j]).bits == SINGLE_NEG_INFINITY {
                    Single { bits: SINGLE_NEG_INFINITY }
                } else {
                    m.best_score(sentence, sets[j]).over(
                        powf(
                            Single::of_natural(
                                best_pieces(m.graph(sentence), m.weighting(sets[j]), end).len(),
                            ),
                            alpha,
                        ),
                    )
                };
            match result {
                Ok(Some((index, tokens, found))) => {
                    &&& wins(score, sets.len() as int, index as int)
                    &&& found == score(index as int) || found.bits == SINGLE_NEG_INFINITY && !score(
                        index as int,
                    ).exceeds(found)
                    &&& m.best_score(sentence, sets[index as int]).bits != SINGLE_NEG_INFINITY
                    &&& tokens@.map_values(|token: String| token@) == m.best_tokens(
                        sentence,
                        sets[index as int],
                    )
                },
                Ok(None) => exists|i: int| #[trigger]
                    wins(score, sets.len() as int, i) && m.best_score(sentence, sets[i]).bits
                        == SINGLE_NEG_INFINITY,
                Err(_) => false,
            }
        }),
{
    let sets = m.weight_sets->0;
    let end = encode_utf8(sentence).len() as int;
    let g = m.graph(sentence);
    let score = |j: int|
        if m.best_score(sentence, sets[j]).bits == SINGLE_NEG_INFINITY {
            Single { bits: SINGLE_NEG_INFINITY }
        } else {
            m.best_score(sentence, sets[j]).over(
                powf(Single::of_natural(best_pieces(g, m.weighting(sets[j]), end).len()), alpha),
            )
        };
    let scores = m.normalized_scores(sentence, sets, powf, alpha);
    lemma_empty_text(sentence);
    assert forall|j: int| 0 <= j < sets.len() implies (#[trigger] scores[j]) == score(j) by {
        let w = m.weighting(sets[j]);
        if m.best_score(sentence, sets[j]).bits == SINGLE_NEG_INFINITY {
            lemma_unreached_count(g, w, end, end, 0);
        } else {
            lemma_best_count(g, w, end, end, 0);
            law_best_is_attained(g, w, end);
        }
    }
    lemma_winner_wins(scores, score);
    match result {
        Ok(Some((index, tokens, found))) => {
            assert(tokens@.map_values(|token: String| token@) =~= texts_of(tokens@));
        },
        _ => {
            assert(wins(score, sets.len() as int, winner(scores).index));
        },
    }
}

/// The forward choice: the first set whose forward score, over all ways through the graph of the
/// sentence, is the largest. The score returned is that forward score; the tokens are those of
/// the best segmentation by that set.
pub proof fn law_forward_choice(
    m: ModelView,
    sentence: Seq<char>,
    log_1p_exp: spec_fn(Single) -> Single,
    result: Result<Option<(usize, Vec<String>, Single)>, UnigramError>,
)
    requires
        is_open_choice(m, sentence),
        gives_checked(
            result,
            m.best_forward(sentence, log_1p_exp),
            m.can_choose(sentence, m.forward_winner(sentence, log_1p_exp).index),
        ),
    ensures
        ({
            let sets = m.weight_sets->0;
            let end = encode_utf8(sentence).len() as int;
            let score = |j: int|
                forward(log_1p_exp, m.graph(sentence), m.weighting(sets[j]), end);
            match result {
                Ok(Some((index, tokens, found))) => {
                    &&& wins(score, sets.len() as int, index as int)
                    &&& found == score(index as int) || found.bits == SINGLE_NEG_INFINITY && !score(
                        index as int,
                    ).exceeds(found)
                    &&& m.best_score(sentence, sets[index as int]).bits != SINGLE_NEG_INFINITY
                    &&& tokens@.map_values(|token: String| token@) == m.best_tokens(
                        sentence,
                        sets[index as int],
                    )
                },
                Ok(None) => exists|i: int| #[trigger]
                    wins(score, sets.len() as int, i) && m.best_score(sentence, sets[i]).bits
                        == SINGLE_NEG_INFINITY,
                Err(_) => false,
            }
        }),
{
    let sets = m.weight_sets->0;
    let end = encode_utf8(sentence).len() as int;
    let score = |j: int| forward(log_1p_exp, m.graph(sentence), m.weighting(sets[j]), end);
    let scores = m.forward_scores(sentence, sets, log_1p_exp);
    lemma_winner_wins(scores, score);
    match result {
        Ok(Some((index, tokens, found))) => {
            assert(tokens@.map_values(|token: String| token@) =~= texts_of(tokens@));
        },
        _ => {
            assert(wins(score, sets.len() as int, winner(scores).index));
        },
    }
}

/// With an empty list of sets, the model's own scores, rounded to single precision, are the only
/// weights, and the index is 0.
pub proof fn law_choice_without_sets(
    m: ModelView,
    sentence: Seq<char>,
    own: Seq<Single>,
    result: Result<Option<(usize, Vec<String>, Single)>, UnigramError>,
    biases: Seq<Single>,
)
    requires
        m.weight_sets is Some,
        m.weight_sets->0.len() == 0,
        sentence.len() > 0,
        m.encoder.unk_id is Some,
        own.len() == m.encoder.vocab.len(),
        forall|i: int| 0 <= i < own.len() ==> (#[trigger] own[i]) == m.encoder.vocab[i].1.narrowed(),
        gives_checked(
            result,
            m.best_plain(sentence),
            m.can_choose(sentence, m.plain_index(sentence)),
        ) || gives_checked(
            result,
            m.best_biased(sentence, biases),
            m.can_choose(sentence, m.biased_index(sentence, biases)),
        ),
    ensures
        match result {
            Ok(Some((index, tokens, found))) => {
                &&& index == 0
                &&& found == m.best_score(sentence, own)
                &&& found.bits != SINGLE_NEG_INFINITY
                &&& tokens@.map_values(|token: String| token@) == m.best_tokens(sentence, own)
            },
            Ok(None) => m.best_score(sentence, own).bits == SINGLE_NEG_INFINITY,
            Err(_) => false,
        },
{
    assert(own =~= m.own_weights());
    match result {
        Ok(Some((index, tokens, found))) => {
            assert(tokens@.map_values(|token: String| token@) =~= texts_of(tokens@));
        },
        _ => {},
    }
}

/// With an empty list of sets, the normalized and the forward choice have the same tokens, and
/// negative infinity for a score, as no set has been compared.
pub proof fn law_compared_choice_without_sets(
    m: ModelView,
    sentence: Seq<char>,
    own: Seq<Single>,
    result: Result<Option<(usize, Vec<String>, Single)>, UnigramError>,
    powf: spec_fn(Single, Single) -> Single,
    alpha: Single,
    log_1p_exp: spec_fn(Single) -> Single,
)
    requires
        m.weight_sets is Some,
        m.weight_sets->0.len() == 0,
        sentence.len() > 0,
        m.encoder.unk_id is Some,
        own.len() == m.encoder.vocab.len(),
        forall|i: int| 0 <= i < own.len() ==> (#[trigger] own[i]) == m.encoder.vocab[i].1.narrowed(),
        gives_checked(
            result,
            m.best_normalized(sentence, powf, alpha),
            m.can_choose(sentence, m.normalized_winner(sentence, powf, alpha).index),
        ) || gives_checked(
            result,
            m.best_forward(sentence, log_1p_exp),
            m.can_choose(sentence, m.forward_winner(sentence, log_1p_exp).index),
        ),
    ensures
        match result {
            Ok(Some((index, tokens, found))) => {
                &&& index == 0
                &&& found.bits == SINGLE_NEG_INFINITY
                &&& m.best_score(sentence, own).bits != SINGLE_NEG_INFINITY
                &&& tokens@.map_values(|token: String| token@) == m.best_tokens(sentence, own)
            },
            Ok(None) => m.best_score(sentence, own).bits == SINGLE_NEG_INFINITY,
            Err(_) => false,
        },
{
    assert(own =~= m.own_weights());
    match result {
        Ok(Some((index, tokens, found))) => {
            assert(tokens@.map_values(|token: String| token@) =~= texts_of(tokens@));
        },
        _ => {},
    }
}

/// A result that is not checked is the checked one.
pub proof fn law_unchecked_is_checked(
    result: Result<(usize, Vec<String>, Single), UnigramError>,
    expected: Result<Outcome, UnigramError>,
)
    requires
        gives_outcome(result, expected),
    ensures
        match result {
            Ok(found) => gives_checked(Ok(Some(found)), expected, true) && match expected {
                Ok(outcome) => {
                    &&& found.0 == outcome.index
                    &&& found.1@.map_values(|token: String| token@) == outcome.tokens
                    &&& found.2 == outcome.score
                },
                Err(_) => false,
            },
            Err(error) => gives_checked(Err(error), expected, true) && expected == Err::<
                Outcome,
                UnigramError,
            >(error),
        },
{
    match result {
        Ok(found) => {
            assert(found.1@.map_values(|token: String| token@) =~= texts_of(found.1@));
        },
        Err(_) => {},
    }
}

/// Many sentences: one result for each, in their order, and each what is expected of its sentence.
/// An error is one that is expected of some sentence; without sets of weights there is an error,
/// even for no sentences.
pub proof fn law_batch_is_each(
    m: ModelView,
    sentences: Seq<String>,
    result: Result<Vec<(usize, Vec<String>, Single)>, UnigramError>,
    expected: spec_fn(Seq<char>) -> Result<Outcome, UnigramError>,
)
    requires
        gives_each(m, sentences, result, expected),
    ensures
        m.weight_sets is None ==> result is Err,
        match result {
            Ok(found) => {
                &&& found@.len() == sentences.len()
                &&& forall|i: int|
                    0 <= i < sentences.len() ==> gives_outcome(
                        Ok(#[trigger] found@[i]),
                        expected(sentences[i]@),
                    )
            },
            Err(error) => {
                ||| m.weight_sets is None && error == UnigramError::NoCachedWeights
                ||| exists|i: int|
                    0 <= i < sentences.len() && expected((#[trigger] sentences[i])@) == Err::<
                        Outcome,
                        UnigramError,
                    >(error)
            },
        },
{
}

/// The segmentation by a set that is asked for: without sets, and for an index beyond them, it
/// fails, even for the empty sentence; the empty sentence has no tokens, and a score of zero;
/// without an id for unknown characters it fails; otherwise it is the best by that set.
pub proof fn law_tokens_by_index(
    m: ModelView,
    sentence: Seq<char>,
    index: usize,
    result: Result<(Vec<String>, Single), UnigramError>,
)
    requires
        gives_tokens(result, m.tokens_by(sentence, index as int)),
        m.weight_sets is Some ==> m.weight_sets->0.len() <= usize::MAX,
    ensures
        ({
            let sets = m.weight_sets->0;
            if m.weight_sets is None {
                result == Err::<(Vec<String>, Single), UnigramError>(UnigramError::NoCachedWeights)
            } else if index >= sets.len() {
                result is Err && match result->Err_0 {
                    UnigramError::WeightSetIndexOutOfRange { index: i, num_sets } => i == index
                        && num_sets == sets.len(),
                    _ => false,
                }
            } else if sentence.len() == 0 {
                match result {
                    Ok((tokens, score)) => tokens@.len() == 0 && score.bits == 0,
                    Err(_) => false,
                }
            } else if m.encoder.unk_id is None {
                result == Err::<(Vec<String>, Single), UnigramError>(UnigramError::MissingUnkId)
            } else {
                match result {
                    Ok((tokens, score)) => {
                        &&& score == m.best_score(sentence, sets[index as int])
                        &&& tokens@.map_values(|token: String| token@) == m.best_tokens(
                            sentence,
                            sets[index as int],
                        )
                    },
                    Err(_) => false,
                }
            }
        }),
{
    match result {
        Ok((tokens, score)) => {
            assert(texts_of(tokens@).len() == tokens@.len());
            assert(tokens@.map_values(|token: String| token@) =~= texts_of(tokens@));
        },
        Err(_) => {},
    }
}

/// When a choice, or a segmentation that is asked for, is possible.
pub proof fn law_possible_choices(m: ModelView, sentence: Seq<char>, index: int)
    requires
        m.weight_sets is Some,
        sentence.len() > 0,
        m.encoder.unk_id is Some,
        0 <= index < m.weight_sets->0.len(),
    ensures
        m.can_choose(sentence, index) <==> m.best_score(sentence, m.weight_sets->0[index]).bits
            != SINGLE_NEG_INFINITY,
        m.can_segment_by(sentence, index) <==> m.best_score(
            sentence,
            m.weight_sets->0[index],
        ).bits != SINGLE_NEG_INFINITY,
{
}

/// The largest scores: as many as asked for, or as there are; each set at most once, with the
/// score that it gives the sentence; none above an earlier one; and no set that is left out gives
/// the sentence a score above one that is listed.
pub proof fn law_top_lists_largest(
    m: ModelView,
    sentence: Seq<char>,
    k: int,
    result: Result<Vec<(usize, Single)>, UnigramError>,
)
    requires
        0 <= k,
        m.gives_top(sentence, k, result),
    ensures
        ({
            let sets = m.weight_sets->0;
            if m.weight_sets is None {
                result == Err::<Vec<(usize, Single)>, UnigramError>(UnigramError::NoCachedWeights)
            } else if sentence.len() == 0 || sets.len() == 0 || k == 0 {
                result is Ok && result->Ok_0@.len() == 0
            } else if m.encoder.unk_id is None {
                result == Err::<Vec<(usize, Single)>, UnigramError>(UnigramError::MissingUnkId)
            } else {
                match result {
                    Ok(top) => {
                        &&& top@.len() == if k < sets.len() { k } else { sets.len() as int }
                        &&& forall|i: int|
                            0 <= i < top@.len() ==> (#[trigger] top@[i]).0 < sets.len() && top@[i].1
                                == m.best_score(sentence, sets[top@[i].0 as int])
                        &&& forall|i: int, j: int|
                            #![trigger top@[i], top@[j]]
                            0 <= i < j < top@.len() ==> top@[i].0 != top@[j].0
                                && !top@[j].1.exceeds(top@[i].1)
                        &&& forall|x: int, i: int|
                            #![trigger sets[x], top@[i]]
                            0 <= x < sets.len() && 0 <= i < top@.len() && m.best_score(
                                sentence,
                                sets[x],
                            ).exceeds(top@[i].1) ==> exists|j: int|
                                0 <= j < top@.len() && (#[trigger] top@[j]).0 == x
                    },
                    Err(_) => false,
                }
            }
        }),
{
    let sets = m.weight_sets->0;
    if m.weight_sets is Some && sentence.len() > 0 && sets.len() > 0 && k > 0 && m.encoder.unk_id
        is Some {
        let top = result->Ok_0@;
        let ranked = ranking(top);
        let scores = m.plain_scores(sentence, sets);
        assert(is_top(scores, k, ranked));
        assert forall|i: int| 0 <= i < top.len() implies (#[trigger] top[i]).0 < sets.len()
            && top[i].1 == m.best_score(sentence, sets[top[i].0 as int]) by {
            assert(0 <= ranked[i].index < scores.len());
            assert(scores[ranked[i].index] == m.best_score(sentence, sets[top[i].0 as int]));
        }
        assert forall|i: int, j: int|
            #![trigger top[i], top[j]]
            0 <= i < j < top.len() implies top[i].0 != top[j].0 && !top[j].1.exceeds(top[i].1) by {
            assert(ranked[i].index != ranked[j].index);
        }
        assert forall|x: int, i: int|
            #![trigger sets[x], top[i]]
            0 <= x < sets.len() && 0 <= i < top.len() && m.best_score(sentence, sets[x]).exceeds(
                top[i].1,
            ) implies exists|j: int| 0 <= j < top.len() && (#[trigger] top[j]).0 == x by {
            assert(scores[x] == m.best_score(sentence, sets[x]));
            assert(ranked[i].score == top[i].1);
            assert(is_listed(ranked, x));
            let j = choose|j: int| 0 <= j < ranked.len() && (#[trigger] ranked[j]).index == x;
            assert(top[j].0 == x);
        }
    }
}

/// Sets of weights, as sequences and rounded to single precision: each weight by itself.
pub proof fn law_sets_mean(sets: Seq<Vec<Single>>, given: Seq<Vec<Double>>)
    ensures
        crate::model::sets_of(sets).len() == sets.len(),
        forall|i: int|
            0 <= i < sets.len() ==> (#[trigger] crate::model::sets_of(sets)[i]) == sets[i]@,
        given_sets(given).len() == given.len(),
        forall|i: int| 0 <= i < given.len() ==> (#[trigger] given_sets(given)[i]) == given[i]@,
        narrowed_sets(given_sets(given)).len() == given.len(),
        forall|i: int|
            0 <= i < given.len() ==> (#[trigger] narrowed_sets(given_sets(given))[i]).len()
                == given[i]@.len(),
        forall|i: int, k: int|
            0 <= i < given.len() && 0 <= k < given[i]@.len() ==> (#[trigger] narrowed_sets(
                given_sets(given),
            )[i][k]) == given[i]@[k].narrowed(),
{
}

/// An error of lengths says how many weights are expected, and how many the first set has that
/// does not have as many.
pub proof fn law_length_mismatch<T>(sets: Seq<Seq<T>>, length: nat, error: UnigramError)
    requires
        length <= usize::MAX,
        forall|i: int| 0 <= i < sets.len() ==> (#[trigger] sets[i]).len() <= usize::MAX,
    ensures
        all_of_length(sets, length) <==> forall|i: int|
            0 <= i < sets.len() ==> (#[trigger] sets[i]).len() == length,
        is_length_mismatch(sets, length, error) ==> exists|i: int|
            0 <= i < sets.len() && (#[trigger] sets[i]).len() != length && (forall|j: int|
                0 <= j < i ==> (#[trigger] sets[j]).len() == length) && match error {
                UnigramError::MismatchedWeightLength { expected, got } => expected == length && got
                    == sets[i].len(),
                _ => false,
            },
{
    if is_length_mismatch(sets, length, error) {
        let i = choose|i: int| #[trigger]
            is_first_mismatch(sets, length, i) && error == (UnigramError::MismatchedWeightLength {
                expected: length as usize,
                got: sets[i].len() as usize,
            });
        assert(sets[i].len() != length);
    }
}

/// Sets that are given with the sentence: the empty sentence has no tokens, whatever the sets;
/// where each set has a weight for each token, only a missing id for unknown characters fails.
pub proof fn law_given_sets_before_looking(
    m: ModelView,
    sentence: Seq<char>,
    given: Seq<Vec<Double>>,
    result: Result<(usize, Vec<String>, Double), UnigramError>,
)
    requires
        gives_given(result, m.best_given(sentence, given_sets(given))),
    ensures
        sentence.len() == 0 ==> match result {
            Ok((index, tokens, found)) => index == 0 && tokens@.len() == 0 && found == widened(
                Single { bits: 0 },
            ),
            Err(_) => false,
        },
        sentence.len() > 0 && (forall|j: int|
            0 <= j < given.len() ==> (#[trigger] given[j])@.len() == m.encoder.vocab.len()) ==> {
            if m.encoder.unk_id is None {
                result == Err::<(usize, Vec<String>, Double), UnigramError>(
                    UnigramError::MissingUnkId,
                )
            } else {
                result is Ok
            }
        },
{
    let all = given_sets(given);
    match result {
        Ok((index, tokens, found)) => {
            assert(texts_of(tokens@).len() == tokens@.len());
        },
        Err(_) => {},
    }
    if forall|j: int| 0 <= j < given.len() ==> (#[trigger] given[j])@.len() == m.encoder.vocab.len() {
        assert forall|j: int| 0 <= j < all.len() implies (#[trigger] all[j]).len()
            == m.encoder.vocab.len() by {
            assert(given[j]@.len() == m.encoder.vocab.len());
        }
    }
}

/// Sets that are given with the sentence and do not all have a weight for each token are refused,
/// with the length of the first such set.
pub proof fn law_given_sets_are_refused(
    m: ModelView,
    sentence: Seq<char>,
    given: Seq<Vec<Double>>,
    bad: int,
    result: Result<(usize, Vec<String>, Double), UnigramError>,
)
    requires
        m.encoder.vocab.len() <= usize::MAX,
        sentence.len() > 0,
        0 <= bad < given.len(),
        given[bad]@.len() != m.encoder.vocab.len(),
        forall|j: int| 0 <= j < bad ==> (#[trigger] given[j])@.len() == m.encoder.vocab.len(),
        gives_given(result, m.best_given(sentence, given_sets(given))),
    ensures
        match result {
            Err(UnigramError::MismatchedWeightLength { expected, got }) => expected
                == m.encoder.vocab.len() && got == given[bad]@.len(),
            _ => false,
        },
{
    let all = given_sets(given);
    assert(all[bad] == given[bad]@);
    assert(given[bad].len() == given[bad]@.len());
    assert forall|j: int| 0 <= j < bad implies (#[trigger] all[j]).len() == m.encoder.vocab.len() by {
        assert(given[j]@.len() == m.encoder.vocab.len());
    }
    assert(is_first_mismatch(all, m.encoder.vocab.len(), bad));
    lemma_first_mismatch(all, m.encoder.vocab.len(), bad);
}

/// Sets that are given with the sentence: chosen is the first that gives the sentence the largest
/// score, once its weights are rounded to single precision, with its tokens and that score in
/// double precision.
pub proof fn law_given_choice(
    m: ModelView,
    sentence: Seq<char>,
    given: Seq<Vec<Double>>,
    result: Result<(usize, Vec<String>, Double), UnigramError>,
)
    requires
        gives_given(result, m.best_given(sentence, given_sets(given))),
        sentence.len() > 0,
        m.encoder.unk_id is Some,
        given.len() > 0,
        forall|j: int|
            0 <= j < given.len() ==> (#[trigger] given[j])@.len() == m.encoder.vocab.len(),
    ensures
        ({
            let weights = |j: int| given[j]@.map_values(|weight: Double| weight.narrowed());
            let score = |j: int| m.best_score(sentence, weights(j));
            match result {
                Ok((index, tokens, found)) => {
                    &&& wins(score, given.len() as int, index as int)
                    &&& found == widened(score(index as int))
                    &&& tokens@.map_values(|token: String| token@) == m.best_tokens(
                        sentence,
                        weights(index as int),
                    )
                },
                Err(_) => false,
            }
        }),
{
    let all = given_sets(given);
    let sets = narrowed_sets(all);
    let weights = |j: int| given[j]@.map_values(|weight: Double| weight.narrowed());
    let score = |j: int| m.best_score(sentence, weights(j));
    let scores = m.plain_scores(sentence, sets);
    assert forall|j: int| 0 <= j < given.len() implies (#[trigger] sets[j]) == weights(j) by {
        assert(all[j] == given[j]@);
        assert(sets[j] =~= weights(j));
    }
    assert forall|j: int| 0 <= j < all.len() implies (#[trigger] all[j]).len()
        == m.encoder.vocab.len() by {
        assert(given[j]@.len() == m.encoder.vocab.len());
    }
    assert forall|j: int| 0 <= j < scores.len() implies (#[trigger] scores[j]) == score(j) by {
        assert(sets[j] == weights(j));
    }
    lemma_winner_wins(scores, score);
    let i = winner(scores).index;
    assert(sets[i] == weights(i));
    match result {
        Ok((index, tokens, found)) => {
            assert(tokens@.map_values(|token: String| token@) =~= texts_of(tokens@));
        },
        Err(_) => {},
    }
}

/// With no sets given, the model's own scores, rounded to single precision, are the only weights.
pub proof fn law_no_given_sets(
    m: ModelView,
    sentence: Seq<char>,
    own: Seq<Single>,
    result: Result<(usize, Vec<String>, Double), UnigramError>,
)
    requires
        gives_given(result, m.best_given(sentence, given_sets(seq![]))),
        sentence.len() > 0,
        m.encoder.unk_id is Some,
        own.len() == m.encoder.vocab.len(),
        forall|i: int| 0 <= i < own.len() ==> (#[trigger] own[i]) == m.encoder.vocab[i].1.narrowed(),
    ensures
        match result {
            Ok((index, tokens, found)) => {
                &&& index == 0
                &&& found == widened(m.best_score(sentence, own))
                &&& tokens@.map_values(|token: String| token@) == m.best_tokens(sentence, own)
            },
            Err(_) => false,
        },
{
    assert(own =~= m.own_weights());
    let sets = narrowed_sets(given_sets(seq![]));
    assert(m.plain_scores(sentence, sets) =~= Seq::<Single>::empty());
    match result {
        Ok((index, tokens, found)) => {
            assert(tokens@.map_values(|token: String| token@) =~= texts_of(tokens@));
        },
        Err(_) => {},
    }
}

} // verus!
