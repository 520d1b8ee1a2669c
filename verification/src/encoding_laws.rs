//! The encoding by one pass is the best tokenization.

use crate::double::{
    is_finite, lemma_double_exceeds_order, lemma_double_plus_monotone, lemma_finite_sum, Double,
};
use crate::encoding::{lemma_reached, node, node_at, node_links, optimized, Encoder};
use crate::optimality::is_way;
use crate::segmentation::{tokens_of, trace, Piece};
use crate::sentence::{boundary, lemma_boundary};
use crate::vocabulary::lemma_graph;
use vstd::prelude::*;
use vstd::utf8::{
    encode_utf8, encode_utf8_valid_utf8, is_char_boundary_start_end_of_seq, valid_utf8,
};

verus! {

/// The score of a way: its weights, added up from the beginning.
pub open spec fn tokenization_score(encoder: Encoder, pieces: Seq<Piece>) -> Double
    decreases pieces.len(),
{
    if pieces.len() == 0 {
        Double { bits: 0 }
    } else {
        encoder.weight(pieces.last().id).plus(tokenization_score(encoder, pieces.drop_last()))
    }
}

/// No way to any place has a score that is not a number.
pub open spec fn scores_are_numbers(encoder: Encoder, bytes: Seq<u8>) -> bool {
    forall|pieces: Seq<Piece>, end: int|
        0 <= end <= bytes.len() && #[trigger] is_way(encoder.graph(bytes), pieces, end)
            ==> !tokenization_score(encoder, pieces).nan()
}

pub open spec fn raw_links(encoder: Encoder, bytes: Seq<u8>) -> spec_fn(int) -> (int, usize) {
    |end: int| (node(encoder, bytes, end).start, node(encoder, bytes, end).id)
}

/// The best way to a place, as edges of the graph.
pub open spec fn best_way(encoder: Encoder, bytes: Seq<u8>, end: int) -> Seq<Piece> {
    trace(raw_links(encoder, bytes), end)
}

/// The piece of an edge, with its vocabulary id.
pub open spec fn resolved(encoder: Encoder, pieces: Seq<Piece>) -> Seq<Piece> {
    pieces.map_values(
        |p: Piece| Piece { start: p.start, end: p.end, id: encoder.resolve(p.id) },
    )
}

/// A known way has the score of its last edge added to that of the place it comes from.
proof fn lemma_node_score_at(encoder: Encoder, bytes: Seq<u8>, end: int, start: int, taken: int)
    requires
        0 <= end,
        0 <= start,
        0 <= taken,
    ensures
        ({
            let known = node_at(encoder, bytes, end, start, taken);
            known.start >= 0 ==> known.score == encoder.weight(known.id).plus(
                node(encoder, bytes, known.start).score,
            )
        }),
    decreases start, taken,
{
    if taken > 0 {
        lemma_node_score_at(encoder, bytes, end, start, taken - 1);
    } else if start > 0 {
        lemma_node_score_at(
            encoder,
            bytes,
            end,
            start - 1,
            encoder.graph(bytes)[start - 1].len() as int,
        );
    }
}

/// The encoding follows a tokenization of the sentence whose score is the one computed.
pub proof fn law_encoding_is_attained(encoder: Encoder, bytes: Seq<u8>, end: int)
    requires
        encoder.wf(),
        valid_utf8(bytes),
        bytes.len() <= usize::MAX,
        boundary(bytes, end),
    ensures
        is_way(encoder.graph(bytes), best_way(encoder, bytes, end), end),
        tokenization_score(encoder, best_way(encoder, bytes, end)) == node(
            encoder,
            bytes,
            end,
        ).score,
        trace(node_links(encoder, bytes), end) == resolved(
            encoder,
            best_way(encoder, bytes, end),
        ),
    decreases end,
{
    let pieces = best_way(encoder, bytes, end);
    if end > 0 {
        let g = encoder.graph(bytes);
        lemma_reached(encoder, bytes, end);
        lemma_node_score_at(encoder, bytes, end, end, 0);
        let known = node(encoder, bytes, end);
        law_encoding_is_attained(encoder, bytes, known.start);
        let last = Piece { start: known.start as usize, end: end as usize, id: known.id };
        let before = best_way(encoder, bytes, known.start);
        assert(raw_links(encoder, bytes)(end) == (known.start, known.id));
        assert(pieces == before.push(last));
        assert(pieces.drop_last() =~= before);
        let k = choose|k: int|
            0 <= k < g[known.start].len() && #[trigger] g[known.start][k] == (
                end as usize,
                known.id,
            );
        assert(g[last.start as int][k] == (last.end, last.id));
        assert(trace(node_links(encoder, bytes), end) =~= resolved(encoder, pieces));
    } else {
        assert(trace(node_links(encoder, bytes), end) =~= resolved(encoder, pieces));
    }
}

/// Known scores of places are numbers and do not fall as more edges are seen.
proof fn lemma_node_grows(encoder: Encoder, bytes: Seq<u8>, end: int, start: int, taken: int)
    requires
        encoder.wf(),
        valid_utf8(bytes),
        bytes.len() <= usize::MAX,
        scores_are_numbers(encoder, bytes),
        0 <= end <= bytes.len(),
        0 <= start <= bytes.len(),
        0 <= taken <= encoder.graph(bytes)[start].len(),
    ensures
        ({
            let known = node_at(encoder, bytes, end, start, taken);
            &&& !known.score.nan()
            &&& taken > 0 && node_at(encoder, bytes, end, start, taken - 1).start >= 0 ==> {
                &&& known.start >= 0
                &&& node_at(encoder, bytes, end, start, taken - 1).score.value()
                    <= known.score.value()
            }
        }),
    decreases start, taken,
{
    let g = encoder.graph(bytes);
    if taken > 0 {
        lemma_node_grows(encoder, bytes, end, start, taken - 1);
        let before = node_at(encoder, bytes, end, start, taken - 1);
        let known = node_at(encoder, bytes, end, start, taken);
        if known != before {
            lemma_graph(encoder.vocab, Some(encoder.fallback()), bytes);
            let (to, id) = g[start][taken - 1];
            lemma_candidate_is_number(encoder, bytes, start, taken - 1);
            if before.start >= 0 {
                lemma_double_exceeds_order(known.score, before.score);
            }
        }
    } else if start > 0 {
        lemma_node_grows(encoder, bytes, end, start - 1, g[start - 1].len() as int);
    }
}

/// The score of an edge, added to that of the best way to where it starts, is a number.
proof fn lemma_candidate_is_number(encoder: Encoder, bytes: Seq<u8>, start: int, k: int)
    requires
        encoder.wf(),
        valid_utf8(bytes),
        bytes.len() <= usize::MAX,
        scores_are_numbers(encoder, bytes),
        0 <= start <= bytes.len(),
        0 <= k < encoder.graph(bytes)[start].len(),
    ensures
        !encoder.weight(encoder.graph(bytes)[start][k].1).plus(
            node(encoder, bytes, start).score,
        ).nan(),
{
    let g = encoder.graph(bytes);
    lemma_graph(encoder.vocab, Some(encoder.fallback()), bytes);
    let (to, id) = g[start][k];
    law_encoding_is_attained(encoder, bytes, start);
    let before = best_way(encoder, bytes, start);
    let last = Piece { start: start as usize, end: to, id };
    let pieces = before.push(last);
    assert(pieces.drop_last() =~= before);
    assert(g[last.start as int][k] == (last.end, last.id));
    assert(is_way(g, pieces, to as int));
}

/// A later stage of the scan knows at least as good a way.
proof fn lemma_node_keeps(
    encoder: Encoder,
    bytes: Seq<u8>,
    end: int,
    start: int,
    taken: int,
    later_start: int,
    later_taken: int,
)
    requires
        encoder.wf(),
        valid_utf8(bytes),
        bytes.len() <= usize::MAX,
        scores_are_numbers(encoder, bytes),
        0 <= end <= bytes.len(),
        0 <= start <= later_start <= bytes.len(),
        0 <= taken <= encoder.graph(bytes)[start].len(),
        0 <= later_taken <= encoder.graph(bytes)[later_start].len(),
        start == later_start ==> taken <= later_taken,
        node_at(encoder, bytes, end, start, taken).start >= 0,
    ensures
        node_at(encoder, bytes, end, later_start, later_taken).start >= 0,
        node_at(encoder, bytes, end, start, taken).score.value() <= node_at(
            encoder,
            bytes,
            end,
            later_start,
            later_taken,
        ).score.value(),
    decreases later_start, later_taken,
{
    if start == later_start && taken == later_taken {
    } else if later_taken > 0 {
        lemma_node_keeps(encoder, bytes, end, start, taken, later_start, later_taken - 1);
        lemma_node_grows(encoder, bytes, end, later_start, later_taken);
    } else {
        lemma_node_keeps(
            encoder,
            bytes,
            end,
            start,
            taken,
            later_start - 1,
            encoder.graph(bytes)[later_start - 1].len() as int,
        );
    }
}

/// No tokenization exceeds the one that the encoding follows, where all scores are numbers.
pub proof fn law_encoding_is_maximal(
    encoder: Encoder,
    bytes: Seq<u8>,
    pieces: Seq<Piece>,
    end: int,
)
    requires
        encoder.wf(),
        valid_utf8(bytes),
        bytes.len() <= usize::MAX,
        scores_are_numbers(encoder, bytes),
        0 <= end <= bytes.len(),
        is_way(encoder.graph(bytes), pieces, end),
    ensures
        tokenization_score(encoder, pieces).value() <= node(encoder, bytes, end).score.value(),
        !tokenization_score(encoder, pieces).exceeds(node(encoder, bytes, end).score),
    decreases pieces.len(),
{
    let g = encoder.graph(bytes);
    lemma_graph(encoder.vocab, Some(encoder.fallback()), bytes);
    lemma_node_grows(encoder, bytes, end, end, 0);
    if pieces.len() > 0 {
        let last = pieces.last();
        let start = last.start as int;
        assert(is_way(g, pieces.drop_last(), start));
        law_encoding_is_maximal(encoder, bytes, pieces.drop_last(), start);
        let k = choose|k: int|
            0 <= k < g[start].len() && #[trigger] g[start][k] == (last.end, last.id);
        let source = node(encoder, bytes, start);
        let weight = encoder.weight(last.id);
        let candidate = weight.plus(source.score);
        let before = node_at(encoder, bytes, end, start, k);
        let after = node_at(encoder, bytes, end, start, k + 1);
        lemma_candidate_is_number(encoder, bytes, start, k);
        lemma_node_grows(encoder, bytes, start, start, 0);
        lemma_double_plus_monotone(
            weight,
            tokenization_score(encoder, pieces.drop_last()),
            source.score,
        );
        lemma_node_grows(encoder, bytes, end, start, k);
        lemma_double_exceeds_order(candidate, before.score);
        assert(source == node_at(encoder, bytes, start, start, 0));
        assert(candidate.value() <= after.score.value() && after.start >= 0);
        lemma_node_keeps(encoder, bytes, end, start, k + 1, end, 0);
    }
    lemma_double_exceeds_order(
        tokenization_score(encoder, pieces),
        node(encoder, bytes, end).score,
    );
}

/// Finite scores never add up to something that is not a number.
pub proof fn law_finite_scores_are_numbers(encoder: Encoder, bytes: Seq<u8>)
    requires
        encoder.wf(),
        valid_utf8(bytes),
        bytes.len() <= usize::MAX,
        forall|i: int| 0 <= i < encoder.vocab.len() ==> is_finite((#[trigger] encoder.vocab[i]).1),
        is_finite(encoder.unk_score()),
    ensures
        scores_are_numbers(encoder, bytes),
{
    lemma_graph(encoder.vocab, Some(encoder.fallback()), bytes);
    assert forall|pieces: Seq<Piece>, end: int|
        0 <= end <= bytes.len() && #[trigger] is_way(
            encoder.graph(bytes),
            pieces,
            end,
        ) implies !tokenization_score(encoder, pieces).nan() by {
        lemma_finite_way(encoder, bytes, pieces, end);
    }
}

proof fn lemma_finite_way(encoder: Encoder, bytes: Seq<u8>, pieces: Seq<Piece>, end: int)
    requires
        encoder.wf(),
        valid_utf8(bytes),
        bytes.len() <= usize::MAX,
        forall|i: int| 0 <= i < encoder.vocab.len() ==> is_finite((#[trigger] encoder.vocab[i]).1),
        is_finite(encoder.unk_score()),
        0 <= end <= bytes.len(),
        is_way(encoder.graph(bytes), pieces, end),
    ensures
        !tokenization_score(encoder, pieces).nan(),
    decreases pieces.len(),
{
    if pieces.len() > 0 {
        let g = encoder.graph(bytes);
        let last = pieces.last();
        let start = last.start as int;
        lemma_graph(encoder.vocab, Some(encoder.fallback()), bytes);
        lemma_finite_way(encoder, bytes, pieces.drop_last(), start);
        let k = choose|k: int|
            0 <= k < g[start].len() && #[trigger] g[start][k] == (last.end, last.id);
        assert(g[start][k].1 == last.id);
        if last.id != encoder.fallback() {
            assert(is_finite(encoder.vocab[last.id as int].1));
        }
        lemma_finite_sum(
            tokenization_score(encoder, pieces.drop_last()),
            encoder.weight(last.id),
        );
    }
}

/// A sentence is encoded in one pass by the tokens of a tokenization that no other exceeds,
/// where all scores are numbers.
pub proof fn law_optimized_is_best(encoder: Encoder, sentence: Seq<char>, pieces: Seq<Piece>)
    requires
        encoder.wf(),
        encode_utf8(sentence).len() <= usize::MAX,
        scores_are_numbers(encoder, encode_utf8(sentence)),
        is_way(
            encoder.graph(encode_utf8(sentence)),
            pieces,
            encode_utf8(sentence).len() as int,
        ),
    ensures
        optimized(encoder, sentence) matches Ok(tokens) ==> {
            let bytes = encode_utf8(sentence);
            let best = best_way(encoder, bytes, bytes.len() as int);
            &&& tokens == tokens_of(sentence, resolved(encoder, best), encoder.fuse())
            &&& is_way(encoder.graph(bytes), best, bytes.len() as int)
            &&& !tokenization_score(encoder, pieces).exceeds(tokenization_score(encoder, best))
        },
{
    let bytes = encode_utf8(sentence);
    encode_utf8_valid_utf8(sentence);
    is_char_boundary_start_end_of_seq(bytes);
    lemma_boundary(bytes, bytes.len() as int);
    law_encoding_is_attained(encoder, bytes, bytes.len() as int);
    law_encoding_is_maximal(encoder, bytes, pieces, bytes.len() as int);
}

} // verus!
