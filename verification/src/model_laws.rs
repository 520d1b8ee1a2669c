//! What holds of models.

use crate::double::{lemma_double_exceeds_order, Double, DOUBLE_INFINITY};
use crate::encoding::lemma_previous;
use crate::forward_bound::{joins_along, joins_up_to, law_forward_near_best};
use crate::forward_laws::{
    is_at_most, is_never_negative, is_only_way, law_forward_not_below_best,
    law_moderate_forward_is_number, law_only_way_is_forward,
};
use crate::model::query::same_vocab;
use crate::model::lowest;
use crate::optimality::{
    is_live, is_way, law_best_is_attained, law_best_is_maximal, law_ordinary_way_is_live,
    lemma_best_is_number, way_score,
};
use crate::prepared_dp::{best_pieces, forward, lemma_best_is_chain};
use crate::ranking::{is_top, law_winner_is_first_of_largest, winner, Ranked};
use crate::scan::Edges;
use crate::segmentation::{joined, lemma_tokens_join, Piece};
use crate::sentence::{boundary, lemma_boundary, lemma_empty_text};
use crate::single::{
    is_finite_single, is_moderate, is_ordinary, lemma_exceeds_is_above, lemma_exceeds_order,
    lemma_moderate_is_finite, lemma_neg_infinity_least, Single, SINGLE_ONE,
};
use crate::vocabulary::{
    edges_at, fits, has_single, ids, lemma_edges_differ, lemma_graph, lemma_ids, lemma_token_edges, token_edges, Vocab,
};
use crate::weight_sets::{all_of_length, narrowed_sets, ModelView};
use vstd::arithmetic::power2::pow2;
use vstd::prelude::*;
use vstd::utf8::{encode_utf8, encode_utf8_valid_utf8, is_char_boundary_start_end_of_seq};

verus! {

/// The token with the id of a token is that token.
pub proof fn law_token_of_id_of_token(vocab: Vocab, token: Seq<char>)
    requires
        fits(vocab),
    ensures
        ids(vocab).contains_key(token) ==> ids(vocab)[token] < vocab.len()
            && vocab[ids(vocab)[token] as int].0 == token,
        ids(vocab).contains_key(token) <==> exists|i: int|
            0 <= i < vocab.len() && (#[trigger] vocab[i]).0 == token,
{
    lemma_ids(vocab, token);
}

/// The id of the token with an id is that id, where the token has no later entry.
pub proof fn law_id_of_token_of_id(vocab: Vocab, id: u32)
    requires
        fits(vocab),
        id < vocab.len(),
        forall|j: int| id < j < vocab.len() ==> (#[trigger] vocab[j]).0 != vocab[id as int].0,
    ensures
        ids(vocab).contains_key(vocab[id as int].0),
        ids(vocab)[vocab[id as int].0] == id,
{
    lemma_ids(vocab, vocab[id as int].0);
}

/// The lowest score is one of the scores, or infinity; no score is below it.
pub proof fn law_lowest_is_least(vocab: Vocab)
    ensures
        !lowest(vocab).nan(),
        lowest(vocab).bits == DOUBLE_INFINITY || exists|i: int|
            0 <= i < vocab.len() && (#[trigger] vocab[i]).1 == lowest(vocab),
        forall|i: int| 0 <= i < vocab.len() ==> !lowest(vocab).exceeds((#[trigger] vocab[i]).1),
    decreases vocab.len(),
{
    if vocab.len() > 0 {
        let rest = vocab.drop_last();
        let last = vocab.last().1;
        let low = lowest(vocab);
        law_lowest_is_least(rest);
        crate::double::lemma_double_exceeds_is_above(lowest(rest), last);
        assert forall|i: int| 0 <= i < vocab.len() implies !low.exceeds((#[trigger] vocab[i]).1) by {
            crate::double::lemma_double_exceeds_is_above(low, vocab[i].1);
            if i < rest.len() {
                assert(rest[i] == vocab[i]);
                if !vocab[i].1.nan() {
                    lemma_double_exceeds_order(lowest(rest), vocab[i].1);
                }
            }
        }
        if low == last {
            assert(vocab[vocab.len() - 1].1 == low);
        } else if lowest(rest).bits != DOUBLE_INFINITY {
            let i = choose|i: int| 0 <= i < rest.len() && (#[trigger] rest[i]).1 == lowest(rest);
            assert(vocab[i].1 == low);
        }
    }
}

/// A vocabulary without scores that are not numbers equals itself, and so a copy of a model
/// equals the model.
pub proof fn law_vocab_equals_itself(vocab: Vocab)
    requires
        forall|i: int| 0 <= i < vocab.len() ==> !(#[trigger] vocab[i]).1.nan(),
    ensures
        same_vocab(vocab, vocab),
{
}

/// Equality of vocabularies goes both ways.
pub proof fn law_same_vocab_is_symmetric(a: Vocab, b: Vocab)
    ensures
        same_vocab(a, b) == same_vocab(b, a),
{
    assert forall|a: Vocab, b: Vocab| #[trigger] same_vocab(a, b) implies same_vocab(b, a) by {
        assert forall|i: int| 0 <= i < b.len() implies (#[trigger] b[i]).0 == a[i].0
            && b[i].1.same_number(a[i].1) by {
            assert(a[i].0 == b[i].0);
        }
    }
}

/// The tokens of the best segmentation by a set of weights, one after the other, are the
/// sentence, and none is empty.
pub proof fn law_best_tokens_cover(m: ModelView, sentence: Seq<char>, weights: Seq<Single>)
    requires
        m.wf(),
        encode_utf8(sentence).len() <= usize::MAX,
        m.segmentable(sentence, weights),
    ensures
        joined(m.best_tokens(sentence, weights)) == sentence,
        forall|i: int|
            0 <= i < m.best_tokens(sentence, weights).len() ==> (#[trigger] m.best_tokens(
                sentence,
                weights,
            )[i]).len() > 0,
{
    let bytes = encode_utf8(sentence);
    encode_utf8_valid_utf8(sentence);
    lemma_graph(m.encoder.vocab, m.encoder.unk_id, bytes);
    lemma_best_is_chain(sentence, m.graph(sentence), m.weighting(weights));
    lemma_tokens_join(
        sentence,
        best_pieces(m.graph(sentence), m.weighting(weights), bytes.len() as int),
        m.encoder.fuse(),
    );
}

/// The score by a set of weights is that of the best segmentation, and the number of edges is
/// that of its pieces.
pub proof fn law_best_score_is_attained(m: ModelView, sentence: Seq<char>, weights: Seq<Single>)
    requires
        encode_utf8(sentence).len() < usize::MAX,
        m.segmentable(sentence, weights),
    ensures
        ({
            let end = encode_utf8(sentence).len() as int;
            let pieces = best_pieces(m.graph(sentence), m.weighting(weights), end);
            &&& is_way(m.graph(sentence), pieces, end)
            &&& way_score(m.weighting(weights), pieces) == m.best_score(sentence, weights)
            &&& pieces.len() == m.best_count(sentence, weights)
        }),
{
    law_best_is_attained(
        m.graph(sentence),
        m.weighting(weights),
        encode_utf8(sentence).len() as int,
    );
}

/// No segmentation whose score stays a number above negative infinity all the way has a score
/// above that of the best; and where there is one, the sentence is segmentable.
pub proof fn law_best_score_is_maximal(
    m: ModelView,
    sentence: Seq<char>,
    weights: Seq<Single>,
    pieces: Seq<Piece>,
)
    requires
        is_way(m.graph(sentence), pieces, encode_utf8(sentence).len() as int),
        is_live(m.weighting(weights), pieces),
    ensures
        m.segmentable(sentence, weights),
        !way_score(m.weighting(weights), pieces).exceeds(m.best_score(sentence, weights)),
{
    law_best_is_maximal(
        m.graph(sentence),
        m.weighting(weights),
        pieces,
        encode_utf8(sentence).len() as int,
    );
}

/// There is a way through a graph to a place.
pub open spec fn has_way(edges: Edges, end: int) -> bool {
    exists|pieces: Seq<Piece>| is_way(edges, pieces, end)
}

/// With an id for unknown characters, a way leads through the graph of every sentence to every
/// place between characters; so only weights can keep a sentence from having a segmentation.
pub proof fn law_known_unk_has_a_way(m: ModelView, sentence: Seq<char>, x: int)
    requires
        m.wf(),
        m.encoder.unk_id is Some,
        encode_utf8(sentence).len() <= usize::MAX,
        boundary(encode_utf8(sentence), x),
    ensures
        has_way(m.graph(sentence), x),
    decreases x,
{
    let bytes = encode_utf8(sentence);
    let vocab = m.encoder.vocab;
    let g = m.graph(sentence);
    encode_utf8_valid_utf8(sentence);
    if x == 0 {
        assert(is_way(g, Seq::<Piece>::empty(), 0));
    } else {
        is_char_boundary_start_end_of_seq(bytes);
        lemma_boundary(bytes, 0);
        let p = lemma_previous(bytes, 0, x);
        law_known_unk_has_a_way(m, sentence, p);
        let before = choose|pieces: Seq<Piece>| is_way(g, pieces, p);
        lemma_token_edges(vocab, bytes, p);
        let tokens = token_edges(vocab, bytes, p);
        let row = edges_at(vocab, m.encoder.unk_id, bytes, p);
        assert(g[p] == row);
        let k = if has_single(vocab, bytes, p) {
            choose|k: int| 0 <= k < tokens.len() && (#[trigger] tokens[k]).0 == x
        } else {
            tokens.len() as int
        };
        assert(row[k].0 == x);
        let last = Piece { start: p as usize, end: x as usize, id: row[k].1 };
        let pieces = before.push(last);
        assert(pieces.drop_last() =~= before);
        assert(g[last.start as int][k] == (last.end, last.id));
        assert(is_way(g, pieces, x));
    }
}

/// Ordinary weights segment every sentence of up to 16 mebibytes, where the model has an id for
/// unknown characters: then the functions that choose among sets of weights can always choose.
pub proof fn law_ordinary_weights_segment(m: ModelView, sentence: Seq<char>, weights: Seq<Single>)
    requires
        m.wf(),
        m.encoder.unk_id is Some,
        encode_utf8(sentence).len() <= 0x100_0000,
        weights.len() == m.encoder.vocab.len(),
        forall|i: int| 0 <= i < weights.len() ==> is_ordinary(#[trigger] weights[i]),
        is_ordinary(m.encoder.unk_score().narrowed()),
    ensures
        m.segmentable(sentence, weights),
{
    let bytes = encode_utf8(sentence);
    let end = bytes.len() as int;
    let g = m.graph(sentence);
    let w = m.weighting(weights);
    encode_utf8_valid_utf8(sentence);
    is_char_boundary_start_end_of_seq(bytes);
    lemma_boundary(bytes, end);
    lemma_graph(m.encoder.vocab, m.encoder.unk_id, bytes);
    law_known_unk_has_a_way(m, sentence, end);
    let pieces = choose|pieces: Seq<Piece>| is_way(g, pieces, end);
    assert forall|s: int, k: int|
        #![trigger g[s][k]]
        0 <= s < g.len() && 0 <= k < g[s].len() implies is_ordinary(w.weight(g[s][k].1)) by {
        if g[s][k].1 != w.unk_id {
            assert(is_ordinary(weights[g[s][k].1 as int]));
        }
    }
    law_ordinary_way_is_live(g, w, pieces, end);
    law_best_score_is_maximal(m, sentence, weights, pieces);
}

/// What every weight of a graph has, where the weights of tokens and of unknown characters have
/// it.
proof fn lemma_edge_weights(m: ModelView, sentence: Seq<char>, weights: Seq<Single>, s: int, k: int)
    requires
        m.wf(),
        m.encoder.unk_id is Some,
        encode_utf8(sentence).len() <= usize::MAX,
        weights.len() == m.encoder.vocab.len(),
        0 <= s < m.graph(sentence).len(),
        0 <= k < m.graph(sentence)[s].len(),
    ensures
        ({
            let id = m.graph(sentence)[s][k].1;
            let weight = m.weighting(weights).weight(id);
            weight == m.encoder.unk_score().narrowed() || id < weights.len() && weight
                == weights[id as int]
        }),
{
    encode_utf8_valid_utf8(sentence);
    lemma_graph(m.encoder.vocab, m.encoder.unk_id, encode_utf8(sentence));
    let edge = m.graph(sentence)[s][k];
}

/// The forward score of a sentence is a number and not below its best score, for weights of
/// moderate size.
pub proof fn law_forward_score_not_below_best(
    m: ModelView,
    sentence: Seq<char>,
    weights: Seq<Single>,
    log_1p_exp: spec_fn(Single) -> Single,
)
    requires
        m.wf(),
        m.encoder.unk_id is Some,
        encode_utf8(sentence).len() <= 0x100_0000,
        weights.len() == m.encoder.vocab.len(),
        forall|i: int| 0 <= i < weights.len() ==> is_moderate(#[trigger] weights[i]),
        is_moderate(m.encoder.unk_score().narrowed()),
        is_never_negative(log_1p_exp),
        is_at_most(log_1p_exp, Single { bits: SINGLE_ONE }),
    ensures
        ({
            let end = encode_utf8(sentence).len() as int;
            let total = forward(log_1p_exp, m.graph(sentence), m.weighting(weights), end);
            &&& !total.nan()
            &&& !m.best_score(sentence, weights).exceeds(total)
            &&& sentence.len() == 0 ==> total == m.best_score(sentence, weights) && total.bits == 0
        }),
{
    let g = m.graph(sentence);
    let w = m.weighting(weights);
    let end = encode_utf8(sentence).len() as int;
    assert forall|s: int, k: int|
        #![trigger g[s][k]]
        0 <= s < g.len() && 0 <= k < g[s].len() implies is_moderate(w.weight(g[s][k].1)) by {
        lemma_edge_weights(m, sentence, weights, s, k);
    }
    law_moderate_forward_is_number(log_1p_exp, g, w, end);
    law_forward_not_below_best(log_1p_exp, g, w, end);
    lemma_empty_text(sentence);
}

/// The forward score of a sentence lies above its best score by at most what the function gives
/// for each joining of scores on some segmentation, and the errors of the rounded sums: for each
/// joining, and twice for each piece, the `h`-th power of two, in units of the least positive
/// number. Weights are of moderate size, and all scores of a size at which sums err by no more.
pub proof fn law_forward_score_near_best(
    m: ModelView,
    sentence: Seq<char>,
    weights: Seq<Single>,
    log_1p_exp: spec_fn(Single) -> Single,
    most: Single,
    size: nat,
    h: nat,
) -> (way: Seq<Piece>)
    requires
        m.wf(),
        m.encoder.unk_id is Some,
        encode_utf8(sentence).len() <= 0x100_0000,
        weights.len() == m.encoder.vocab.len(),
        forall|i: int|
            0 <= i < weights.len() ==> is_moderate(#[trigger] weights[i]) && -(size as int)
                <= weights[i].value() <= size,
        is_moderate(m.encoder.unk_score().narrowed()),
        -(size as int) <= m.encoder.unk_score().narrowed().value() <= size,
        is_never_negative(log_1p_exp),
        is_at_most(log_1p_exp, most),
        is_at_most(log_1p_exp, Single { bits: SINGLE_ONE }),
        is_finite_single(most),
        most.value() >= 0,
        h <= 252,
        encode_utf8(sentence).len() * (size + pow2(h)) + joins_up_to(
            m.graph(sentence),
            encode_utf8(sentence).len() as int,
        ) * (most.value() + pow2(h)) <= pow2(24 + h),
    ensures
        is_way(m.graph(sentence), way, encode_utf8(sentence).len() as int),
        forward(
            log_1p_exp,
            m.graph(sentence),
            m.weighting(weights),
            encode_utf8(sentence).len() as int,
        ).value() <= m.best_score(sentence, weights).value() + joins_along(m.graph(sentence), way)
            * (most.value() + pow2(h)) + 2 * way.len() * pow2(h),
{
    let g = m.graph(sentence);
    let w = m.weighting(weights);
    let end = encode_utf8(sentence).len() as int;
    law_forward_score_not_below_best(m, sentence, weights, log_1p_exp);
    law_ordinary_weights_segment(m, sentence, weights);
    let total = forward(log_1p_exp, g, w, end);
    lemma_best_is_number(g, w, end);
    lemma_neg_infinity_least(m.best_score(sentence, weights));
    lemma_exceeds_order(m.best_score(sentence, weights), total);
    assert forall|s: int, k: int|
        #![trigger g[s][k]]
        0 <= s < g.len() && 0 <= k < g[s].len() implies is_finite_single(w.weight(g[s][k].1)) && -(
    size as int) <= w.weight(g[s][k].1).value() <= size by {
        lemma_edge_weights(m, sentence, weights, s, k);
        lemma_moderate_is_finite(w.weight(g[s][k].1));
    }
    law_forward_near_best(log_1p_exp, most, g, w, end, size, h)
}

/// Where a sentence has exactly one segmentation, its forward score is its best score, whatever
/// the function, for finite weights.
pub proof fn law_only_segmentation_is_forward(
    m: ModelView,
    sentence: Seq<char>,
    weights: Seq<Single>,
    log_1p_exp: spec_fn(Single) -> Single,
    only: Seq<Piece>,
)
    requires
        m.wf(),
        m.encoder.unk_id is Some,
        encode_utf8(sentence).len() < usize::MAX,
        weights.len() == m.encoder.vocab.len(),
        forall|i: int| 0 <= i < weights.len() ==> is_finite_single(#[trigger] weights[i]),
        is_finite_single(m.encoder.unk_score().narrowed()),
        is_only_way(m.graph(sentence), only, encode_utf8(sentence).len() as int),
    ensures
        forward(
            log_1p_exp,
            m.graph(sentence),
            m.weighting(weights),
            encode_utf8(sentence).len() as int,
        ) == m.best_score(sentence, weights),
{
    let bytes = encode_utf8(sentence);
    let g = m.graph(sentence);
    let w = m.weighting(weights);
    encode_utf8_valid_utf8(sentence);
    assert forall|s: int, k: int|
        #![trigger g[s][k]]
        0 <= s < g.len() && 0 <= k < g[s].len() implies is_finite_single(w.weight(g[s][k].1)) by {
        lemma_edge_weights(m, sentence, weights, s, k);
    }
    assert forall|s: int, j: int, k: int|
        #![trigger g[s][j], g[s][k]]
        0 <= s < g.len() && 0 <= j < k < g[s].len() implies g[s][j] != g[s][k] by {
        lemma_edges_differ(m.encoder.vocab, m.encoder.unk_id, bytes, s);
        let row = edges_at(m.encoder.vocab, m.encoder.unk_id, bytes, s);
        assert(g[s] == row);
        assert(row[j].0 != row[k].0);
    }
    law_only_way_is_forward(log_1p_exp, g, w, only, bytes.len() as int);
}

/// Sets that are given with a sentence are judged as cached ones are, where each has a weight
/// for each token.
pub proof fn law_given_is_cached(m: ModelView, sentence: Seq<char>, given: Seq<Seq<Double>>)
    requires
        all_of_length(given, m.encoder.vocab.len()),
    ensures
        m.best_given(sentence, given) == (ModelView {
            weight_sets: Some(narrowed_sets(given)),
            ..m
        }).best_plain(sentence),
{
    let cached = ModelView { weight_sets: Some(narrowed_sets(given)), ..m };
    let sets = narrowed_sets(given);
    assert(m.plain_scores(sentence, sets) =~= cached.plain_scores(sentence, sets));
    assert(m.own_weights() =~= cached.own_weights());
}

/// A bias of zero at the end, and biases for which there is no set, make no difference.
pub proof fn law_biases_are_padded(m: ModelView, sentence: Seq<char>, biases: Seq<Single>, more: Seq<Single>)
    requires
        forall|i: int|
            0 <= i < more.len() && biases.len() + i < m.weight_sets->0.len() ==> (
            #[trigger] more[i]).bits == 0,
    ensures
        m.best_biased(sentence, biases + more) == m.best_biased(sentence, biases),
{
    let sets = m.weight_sets->0;
    let short = m.biased_scores(sentence, sets, biases);
    let long = m.biased_scores(sentence, sets, biases + more);
    assert forall|i: int| 0 <= i < sets.len() implies short[i] == long[i] by {
        if biases.len() <= i < biases.len() + more.len() {
            assert(more[i - biases.len()].bits == 0);
        }
    }
    assert(short =~= long);
}

/// The first of the listed scores is as large as the winner's.
pub proof fn law_top_begins_with_winner(scores: Seq<Single>, k: int, top: Seq<Ranked>)
    requires
        is_top(scores, k, top),
        k > 0,
        scores.len() > 0,
    ensures
        !winner(scores).score.exceeds(top[0].score),
        !top[0].score.exceeds(winner(scores).score),
{
    law_winner_is_first_of_largest(scores);
    let w = winner(scores);
    let first = top[0];
    assert(!scores[first.index].exceeds(w.score));
    if w.score.exceeds(first.score) {
        lemma_exceeds_is_above(w.score, first.score);
        assert(scores[w.index] == w.score);
        if crate::ranking::is_listed(top, w.index) {
            let i = choose|i: int| 0 <= i < top.len() && (#[trigger] top[i]).index == w.index;
            if i > 0 {
                assert(!top[i].score.exceeds(top[0].score));
            }
        }
    }
}

} // verus!
